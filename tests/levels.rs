use rustanoid::block::{Block, BlockType, Tint};
use rustanoid::board::{init_blocks, layout_blocks};
use rustanoid::geometry::{Point, Rect, UNITS_PER_PIXEL};
use rustanoid::layout::{
    base_layout, contains_powerup, count_occupied, ensure_powerup, get_level_layout,
    upgrade_layout, LevelLayout,
};

const PX: i64 = UNITS_PER_PIXEL;

#[test]
fn medium_block_takes_two_hits() {
    let mut b = Block::new(Point { x: 0, y: 0 }, BlockType::Medium, Point { x: 100 * PX, y: 40 * PX });
    assert_eq!(b.lives, 2);
    assert_eq!(b.tint(), Tint::Orange);
    assert!(!b.hit());
    assert_eq!(b.lives, 1);
    assert_eq!(b.tint(), Tint::Yellow);
    assert!(b.hit());
    assert_eq!(b.lives, 0);
}

#[test]
fn block_lives_and_tints_by_type() {
    let size = Point { x: 10, y: 10 };
    let origin = Point { x: 0, y: 0 };
    let mut strong = Block::new(origin, BlockType::Strong, size);
    assert_eq!(strong.lives, 3);
    assert_eq!(strong.tint(), Tint::Red);
    assert!(!strong.hit());
    assert_eq!(strong.tint(), Tint::Orange);
    assert!(!strong.hit());
    assert_eq!(strong.tint(), Tint::Yellow);
    assert!(strong.hit());
    assert_eq!(Block::new(origin, BlockType::Regular, size).lives, 1);
    assert_eq!(Block::new(origin, BlockType::Regular, size).tint(), Tint::White);
    assert_eq!(Block::new(origin, BlockType::SpawnBallOnDeath, size).tint(), Tint::Green);
    assert_eq!(Block::new(origin, BlockType::SpawnPowerup, size).tint(), Tint::Blue);
    assert_eq!(Block::new(origin, BlockType::SpawnPowerup, size).lives, 1);
    assert_eq!(
        Block::new(Point { x: 3, y: 4 }, BlockType::Regular, Point { x: 5, y: 6 }).rect,
        Rect::new(3, 4, 5, 6)
    );
}

#[test]
fn level_one_pattern() {
    let l = get_level_layout(1);
    assert_eq!((l.width, l.height), (8, 4));
    assert_eq!(l.get_block_at(1, 1), Some(BlockType::SpawnPowerup));
    assert_eq!(l.get_block_at(0, 0), Some(BlockType::Regular));
    assert_eq!(l.get_block_at(4, 2), None);
    assert_eq!(l.get_block_at(8, 0), None);
    assert_eq!(count_occupied(&l.pattern), 28);
}

#[test]
fn hand_drawn_levels_have_their_landmarks() {
    let l2 = get_level_layout(2);
    assert_eq!(l2.get_block_at(4, 0), Some(BlockType::Medium));
    assert_eq!(l2.get_block_at(1, 0), None);
    assert_eq!(l2.get_block_at(5, 3), Some(BlockType::SpawnPowerup));
    let l3 = get_level_layout(3);
    assert_eq!(l3.get_block_at(4, 3), Some(BlockType::Strong));
    assert_eq!(l3.get_block_at(0, 2), Some(BlockType::Medium));
    assert_eq!(l3.get_block_at(4, 0), None);
    assert_eq!(l3.get_block_at(5, 0), None);
    assert_eq!(l3.get_block_at(8, 5), None);
    assert_eq!(l3.get_block_at(2, 3), Some(BlockType::Regular));
    let l5 = get_level_layout(5);
    assert_eq!(l5.get_block_at(0, 0), Some(BlockType::Strong));
    assert_eq!(l5.get_block_at(1, 1), Some(BlockType::Medium));
    assert_eq!(l5.get_block_at(3, 3), None);
    assert_eq!(l5.get_block_at(5, 0), None);
    let l7 = get_level_layout(7);
    assert_eq!((l7.width, l7.height), (13, 8));
    assert_eq!(l7.get_block_at(6, 4), Some(BlockType::Strong));
    assert_eq!(l7.get_block_at(3, 3), None);
    assert_eq!(l7.get_block_at(6, 6), Some(BlockType::SpawnBallOnDeath));
    let l9 = get_level_layout(9);
    assert_eq!(l9.get_block_at(5, 4), Some(BlockType::Strong));
    assert_eq!(l9.get_block_at(3, 3), Some(BlockType::Medium));
    assert_eq!(l9.get_block_at(1, 0), None);
    let l10 = get_level_layout(10);
    assert_eq!((l10.width, l10.height), (14, 10));
    assert_eq!(l10.get_block_at(0, 0), Some(BlockType::Medium));
    assert_eq!(l10.get_block_at(2, 0), None);
    assert_eq!(l10.get_block_at(1, 1), None);
    assert_eq!(l10.get_block_at(1, 0), Some(BlockType::Regular));
    assert_eq!(l10.get_block_at(10, 8), Some(BlockType::SpawnBallOnDeath));
}

#[test]
fn every_level_has_a_powerup() {
    for level in 1..=15 {
        let l = get_level_layout(level);
        assert!(contains_powerup(&l.pattern), "level {}", level);
        assert_eq!(l.pattern.len(), l.width * l.height);
    }
}

#[test]
fn high_levels_wrap_and_only_strengthen_regular_cells() {
    for level in 11..=25 {
        let base = base_layout((level - 1) % 10 + 1);
        let l = get_level_layout(level);
        assert_eq!((l.width, l.height), (base.width, base.height));
        for k in 0..l.pattern.len() {
            match base.pattern[k] {
                Some(BlockType::Regular) => assert!(matches!(
                    l.pattern[k],
                    Some(BlockType::Regular) | Some(BlockType::Medium) | Some(BlockType::Strong)
                )),
                other => assert_eq!(l.pattern[k], other),
            }
        }
    }
}

#[test]
fn upgrade_rolls_follow_difficulty() {
    let mut l = LevelLayout {
        width: 4,
        height: 1,
        pattern: vec![
            Some(BlockType::Regular),
            Some(BlockType::Regular),
            Some(BlockType::Regular),
            Some(BlockType::SpawnPowerup),
        ],
    };
    // level 11: difficulty 2, so rolls 0..2 give strong, 2..4 medium
    upgrade_layout(&mut l, 11, &vec![1, 3, 4, 0]);
    assert_eq!(
        l.pattern,
        vec![
            Some(BlockType::Strong),
            Some(BlockType::Medium),
            Some(BlockType::Regular),
            Some(BlockType::SpawnPowerup)
        ]
    );
}

#[test]
fn missing_powerup_is_patched_on_the_picked_cell() {
    let mut l = LevelLayout {
        width: 3,
        height: 1,
        pattern: vec![Some(BlockType::Regular), None, Some(BlockType::Medium)],
    };
    ensure_powerup(&mut l, 1);
    assert_eq!(l.pattern, vec![Some(BlockType::Regular), None, Some(BlockType::SpawnPowerup)]);
    // already has one: nothing changes
    ensure_powerup(&mut l, 0);
    assert_eq!(l.pattern, vec![Some(BlockType::Regular), None, Some(BlockType::SpawnPowerup)]);
    let mut empty = LevelLayout { width: 2, height: 1, pattern: vec![None, None] };
    ensure_powerup(&mut empty, 0);
    assert_eq!(empty.pattern, vec![None, None]);
}

#[test]
fn board_is_centred_with_gaps() {
    let l = base_layout(1);
    let blocks = layout_blocks(&l, 800 * PX);
    assert_eq!(blocks.len(), 28);
    // (720 px - 7 gaps of 2 px) / 8 columns = 88.25 px
    assert_eq!(blocks[0].rect, Rect::new(40_000, 50 * PX, 88_250, 35_300));
    assert_eq!(blocks[1].rect.x, 40_000 + 88_250 + 2 * PX);
    assert_eq!(blocks[0].block_type, BlockType::Regular);
    // cell (1, 1) is the ninth cell and the eighth occupied one
    assert_eq!(blocks[8].block_type, BlockType::SpawnPowerup);
    assert_eq!(blocks[8].rect.y, 50 * PX + 35_300 + 2 * PX);
}

#[test]
fn init_blocks_places_a_powerup_block() {
    let mut blocks = Vec::new();
    for level in 1..=12 {
        init_blocks(&mut blocks, level, 1024 * PX);
        assert!(!blocks.is_empty());
        assert!(blocks.iter().any(|b| b.block_type == BlockType::SpawnPowerup));
        assert!(blocks.iter().all(|b| b.lives >= 1));
    }
}

#[test]
fn narrowest_play_area_still_lays_out_every_level() {
    let mut blocks = Vec::new();
    for level in 1..=10 {
        init_blocks(&mut blocks, level, 50 * PX);
        assert!(blocks.iter().all(|b| b.rect.w >= 1 && b.rect.h >= 1));
        assert!(blocks.iter().all(|b| b.rect.x >= 0 && b.rect.x + b.rect.w <= 50 * PX));
    }
}
