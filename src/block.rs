//! Breakable blocks.
use vstd::prelude::*;
use crate::geometry::{Point, Rect, UNITS_PER_PIXEL};

verus! {

/// The reference block size; laid-out blocks keep its aspect ratio.
pub const BLOCK_WIDTH: i64 = 100 * UNITS_PER_PIXEL;

pub const BLOCK_HEIGHT: i64 = 40 * UNITS_PER_PIXEL;

#[derive(Clone, Copy, Debug, PartialEq, Eq, Structural)]
pub enum BlockType {
    Regular,
    SpawnBallOnDeath,
    Medium,
    Strong,
    SpawnPowerup,
}

/// The colour a block is drawn in.
#[derive(Clone, Copy, Debug, PartialEq, Eq, Structural)]
pub enum Tint {
    White,
    Yellow,
    Orange,
    Red,
    Green,
    Blue,
}

/// Lives a new block of the given type starts with.
pub open spec fn starting_lives(t: BlockType) -> u32 {
    match t {
        BlockType::Strong => 3,
        BlockType::Medium => 2,
        _ => 1,
    }
}

/// The colour of a block of type `t` with `lives` lives left.
pub open spec fn tint_of(t: BlockType, lives: u32) -> Tint {
    match t {
        BlockType::Regular => Tint::White,
        BlockType::Medium => if lives == 2 {
            Tint::Orange
        } else {
            Tint::Yellow
        },
        BlockType::Strong => if lives == 3 {
            Tint::Red
        } else if lives == 2 {
            Tint::Orange
        } else {
            Tint::Yellow
        },
        BlockType::SpawnBallOnDeath => Tint::Green,
        BlockType::SpawnPowerup => Tint::Blue,
    }
}

#[derive(Clone, Copy, Debug, PartialEq, Eq, Structural)]
pub struct Block {
    pub rect: Rect,
    pub lives: u32,
    pub block_type: BlockType,
}

/// A block after one hit, and whether that hit destroyed it.
pub open spec fn hit_outcome(b: Block) -> (Block, bool) {
    (Block { lives: (b.lives - 1) as u32, ..b }, b.lives == 1)
}

/// A block after `k` hits.
pub open spec fn after_hits(b: Block, k: nat) -> Block
    decreases k,
{
    if k == 0 {
        b
    } else {
        hit_outcome(after_hits(b, (k - 1) as nat)).0
    }
}

impl Block {
    /// An active block: a proper rectangle and between one and its type's
    /// starting lives.
    pub open spec fn wf(self) -> bool {
        self.rect.in_arena() && 1 <= self.lives <= starting_lives(self.block_type)
    }

    pub fn new(pos: Point, block_type: BlockType, size: Point) -> (r: Block)
        ensures
            r.rect == (Rect { x: pos.x, y: pos.y, w: size.x, h: size.y }),
            r.block_type == block_type,
            r.lives == starting_lives(block_type),
    {
        let lives: u32 = match block_type {
            BlockType::Strong => 3,
            BlockType::Medium => 2,
            _ => 1,
        };
        Block { rect: Rect::new(pos.x, pos.y, size.x, size.y), lives, block_type }
    }

    /// Takes one life; returns whether that was the last one.
    pub fn hit(&mut self) -> (destroyed: bool)
        requires
            old(self).lives >= 1,
        ensures
            (*final(self), destroyed) == hit_outcome(*old(self)),
    {
        self.lives = self.lives - 1;
        self.lives == 0
    }

    /// The colour tier that the block's type and remaining lives give.
    pub fn tint(&self) -> (r: Tint)
        ensures
            r == tint_of(self.block_type, self.lives),
    {
        match self.block_type {
            BlockType::Regular => Tint::White,
            BlockType::Medium => if self.lives == 2 {
                Tint::Orange
            } else {
                Tint::Yellow
            },
            BlockType::Strong => if self.lives == 3 {
                Tint::Red
            } else if self.lives == 2 {
                Tint::Orange
            } else {
                Tint::Yellow
            },
            BlockType::SpawnBallOnDeath => Tint::Green,
            BlockType::SpawnPowerup => Tint::Blue,
        }
    }
}

/// A block with `n` lives survives its first `n - 1` hits and is destroyed by
/// hit number `n`: after `k <= n` hits it has `n - k` lives, and a hit reports
/// destruction exactly when it takes the last life.
pub proof fn lemma_lives_count_hits(b: Block, k: nat)
    requires
        k <= b.lives,
    ensures
        after_hits(b, k).lives == b.lives - k,
        after_hits(b, k).rect == b.rect,
        after_hits(b, k).block_type == b.block_type,
        k < b.lives ==> (hit_outcome(after_hits(b, k)).1 <==> k + 1 == b.lives),
        k == b.lives ==> after_hits(b, k).lives == 0,
    decreases k,
{
    if k > 0 {
        lemma_lives_count_hits(b, (k - 1) as nat);
    }
}

} // verus!
