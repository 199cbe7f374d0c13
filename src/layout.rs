//! Level layouts: a grid of optional block types for each level index.
//!
//! Levels 1 to 10 each have a hand-drawn pattern, described below cell by
//! cell. Higher levels reuse those patterns and randomly upgrade regular
//! blocks to medium or strong ones, more often the higher the level.
use vstd::prelude::*;
use vstd::arithmetic::div_mod::{lemma_fundamental_div_mod, lemma_mod_pos_bound};
use crate::block::BlockType;
use crate::random::random_below;

verus! {

/// Width of the grid of a base pattern (level 1 to 10).
pub open spec fn pattern_width(level: int) -> int {
    if level == 1 {
        8
    } else if level == 2 || level == 3 {
        9
    } else if level == 4 || level == 8 {
        10
    } else if level == 5 || level == 9 {
        11
    } else if level == 6 {
        12
    } else if level == 7 {
        13
    } else {
        14
    }
}

/// Height of the grid of a base pattern (level 1 to 10).
pub open spec fn pattern_height(level: int) -> int {
    if level == 1 {
        4
    } else if level == 2 {
        5
    } else if level == 3 || level == 4 {
        6
    } else if level == 5 || level == 6 {
        7
    } else if level == 7 || level == 8 {
        8
    } else if level == 9 {
        9
    } else {
        10
    }
}

/// The base pattern a level uses: levels past 10 wrap around.
pub open spec fn base_level(level: int) -> int {
    if level <= 10 {
        level
    } else {
        (level - 1) % 10 + 1
    }
}

/// Level 1: regular blocks with an empty middle column.
pub open spec fn level1_cell(x: int, y: int) -> Option<BlockType> {
    if x == 1 && y == 1 {
        Some(BlockType::SpawnPowerup)
    } else if x != 4 {
        Some(BlockType::Regular)
    } else {
        None
    }
}

/// Level 2: alternating cells, with two medium blocks.
pub open spec fn level2_cell(x: int, y: int) -> Option<BlockType> {
    if x == 5 && y == 3 {
        Some(BlockType::SpawnPowerup)
    } else if (x == 4 && y == 0) || (x == 2 && y == 2) {
        Some(BlockType::Medium)
    } else if x % 2 == y % 2 {
        Some(BlockType::Regular)
    } else {
        None
    }
}

/// Level 3: a walled castle with gates and an inner pair of walls.
pub open spec fn level3_cell(x: int, y: int) -> Option<BlockType> {
    if x == 4 && y == 3 {
        Some(BlockType::Strong)
    } else if x == 4 && y == 2 {
        Some(BlockType::SpawnPowerup)
    } else if (x == 4 && y == 0) || (x == 8 && y == 5) || (x == 5 && y == 0) {
        None
    } else if x == 0 || x == 8 || y == 0 || y == 5 {
        Some(BlockType::Medium)
    } else if (x == 2 || x == 6) && y > 1 {
        Some(BlockType::Regular)
    } else {
        None
    }
}

/// Level 4: a snake, with strong blocks at the turns.
pub open spec fn level4_cell(x: int, y: int) -> Option<BlockType> {
    if x == 5 && y == 1 {
        Some(BlockType::SpawnPowerup)
    } else if x == 5 && y == 3 {
        Some(BlockType::SpawnBallOnDeath)
    } else if 1 <= y <= 4 && y % 2 == 0 && x == 8 {
        Some(BlockType::Strong)
    } else if 1 <= y <= 4 && y % 2 == 1 && x == 1 {
        Some(BlockType::Strong)
    } else if y % 2 == 0 && x < 9 {
        Some(BlockType::Regular)
    } else if y % 2 == 1 && x > 0 {
        Some(BlockType::Regular)
    } else {
        None
    }
}

pub open spec fn min4(a: int, b: int, c: int, d: int) -> int {
    let ab = if a <= b { a } else { b };
    let cd = if c <= d { c } else { d };
    if ab <= cd { ab } else { cd }
}

/// Level 5: concentric rings, strong outside, with four entry points.
pub open spec fn level5_cell(x: int, y: int) -> Option<BlockType> {
    let ring = min4(y, 6 - y, x, 10 - x);
    if (x == 2 && y == 2) || (x == 8 && y == 4) {
        Some(BlockType::SpawnPowerup)
    } else if (x == 5 && y == 0) || (x == 5 && y == 6) || (x == 0 && y == 3) || (x == 10 && y
        == 3) {
        None
    } else if ring == 0 {
        Some(BlockType::Strong)
    } else if ring == 1 {
        Some(BlockType::Medium)
    } else if ring == 2 {
        Some(BlockType::Regular)
    } else {
        None
    }
}

/// Level 6: a full wall cut by one horizontal and three vertical paths.
pub open spec fn level6_cell(x: int, y: int) -> Option<BlockType> {
    if x == 3 && y == 1 {
        Some(BlockType::SpawnPowerup)
    } else if x == 8 && y == 5 {
        Some(BlockType::SpawnBallOnDeath)
    } else if (y == 1 || y == 5) && (x == 1 || x == 6 || x == 10) {
        Some(BlockType::Medium)
    } else if (y == 0 || y == 6) && x % 4 == 0 {
        Some(BlockType::Strong)
    } else if y == 3 || x == 2 || x == 5 || x == 9 {
        None
    } else {
        Some(BlockType::Regular)
    }
}

pub open spec fn distance(a: int, b: int) -> int {
    if a >= b { a - b } else { b - a }
}

/// Level 7: a diamond around a strong centre, crossed by both diagonals.
pub open spec fn level7_cell(x: int, y: int) -> Option<BlockType> {
    let dist = distance(x, 6) + distance(y, 4);
    if x == 6 && y == 1 {
        Some(BlockType::SpawnPowerup)
    } else if x == 6 && y == 6 {
        Some(BlockType::SpawnBallOnDeath)
    } else if x == y || x + y == 12 {
        None
    } else if dist <= 4 && dist % 2 == 0 {
        if dist == 0 {
            Some(BlockType::Strong)
        } else {
            Some(BlockType::Regular)
        }
    } else if dist <= 6 && x % 2 == y % 2 {
        Some(BlockType::Medium)
    } else {
        None
    }
}

/// Level 8: falling-block pieces over a striped background.
pub open spec fn level8_cell(x: int, y: int) -> Option<BlockType> {
    if x == 7 && y == 1 {
        Some(BlockType::SpawnPowerup)
    } else if x == 1 && y == 6 {
        Some(BlockType::SpawnBallOnDeath)
    } else if (x == 7 || x == 8) && (y == 5 || y == 6) {
        Some(BlockType::Strong)
    } else if (x == 3 && 5 <= y <= 7) || (x == 4 && y == 7) {
        Some(BlockType::Medium)
    } else if (x == 6 && y == 2) || (y == 3 && 5 <= x <= 7) {
        Some(BlockType::Medium)
    } else if x == 2 && 1 <= y <= 4 {
        Some(BlockType::Medium)
    } else if (x + y) % 4 != 0 {
        Some(BlockType::Regular)
    } else {
        None
    }
}

/// Level 9: a grid of lines around a strong centre, with tunnels.
pub open spec fn level9_cell(x: int, y: int) -> Option<BlockType> {
    if x == 5 && y == 2 {
        Some(BlockType::SpawnPowerup)
    } else if x == 5 && y == 6 {
        Some(BlockType::SpawnBallOnDeath)
    } else if y == 1 || y == 7 || x == 1 || x == 9 {
        None
    } else if 4 <= y <= 5 && 4 <= x <= 6 {
        Some(BlockType::Strong)
    } else if x % 3 == 0 || y % 3 == 0 {
        if (x == 3 || x == 6) && (y == 3 || y == 6) {
            Some(BlockType::Medium)
        } else {
            Some(BlockType::Regular)
        }
    } else {
        None
    }
}

/// Level 10: a maze of corridors with blocked connections.
pub open spec fn level10_cell(x: int, y: int) -> Option<BlockType> {
    if (x == 7 && y == 2) || (x == 3 && y == 6) {
        Some(BlockType::SpawnPowerup)
    } else if x == 10 && y == 8 {
        Some(BlockType::SpawnBallOnDeath)
    } else if (x == 0 || x == 13) && (y == 0 || y == 9) {
        Some(BlockType::Medium)
    } else if (x == 3 && y == 2) || (x == 6 && y == 4) || (x == 9 && y == 6) || (x == 12 && y
        == 8) {
        Some(BlockType::Strong)
    } else if (x == 5 && y == 1) || (x == 2 && y == 3) || (x == 11 && y == 5) || (x == 8 && y
        == 7) || (x == 5 && y == 9) {
        Some(BlockType::Medium)
    } else if x == 2 || x == 5 || x == 8 || x == 11 {
        None
    } else if y % 2 == 1 && 1 <= x <= 12 {
        None
    } else {
        Some(BlockType::Regular)
    }
}

/// The cell at column `x`, row `y` of the base pattern of `level` (1 to 10).
pub open spec fn base_cell(level: int, x: int, y: int) -> Option<BlockType> {
    if level == 1 {
        level1_cell(x, y)
    } else if level == 2 {
        level2_cell(x, y)
    } else if level == 3 {
        level3_cell(x, y)
    } else if level == 4 {
        level4_cell(x, y)
    } else if level == 5 {
        level5_cell(x, y)
    } else if level == 6 {
        level6_cell(x, y)
    } else if level == 7 {
        level7_cell(x, y)
    } else if level == 8 {
        level8_cell(x, y)
    } else if level == 9 {
        level9_cell(x, y)
    } else {
        level10_cell(x, y)
    }
}


fn min4_exec(a: usize, b: usize, c: usize, d: usize) -> (r: usize)
    ensures
        r == min4(a as int, b as int, c as int, d as int),
{
    let ab = if a <= b { a } else { b };
    let cd = if c <= d { c } else { d };
    if ab <= cd { ab } else { cd }
}

fn distance_exec(a: usize, b: usize) -> (r: usize)
    ensures
        r == distance(a as int, b as int),
{
    if a >= b { a - b } else { b - a }
}

fn level1_cell_at(x: usize, y: usize) -> (r: Option<BlockType>)
    requires
        x < 8,
        y < 4,
    ensures
        r == level1_cell(x as int, y as int),
{
    if x == 1 && y == 1 {
        Some(BlockType::SpawnPowerup)
    } else if x != 4 {
        Some(BlockType::Regular)
    } else {
        None
    }
}

fn level2_cell_at(x: usize, y: usize) -> (r: Option<BlockType>)
    requires
        x < 9,
        y < 5,
    ensures
        r == level2_cell(x as int, y as int),
{
    if x == 5 && y == 3 {
        Some(BlockType::SpawnPowerup)
    } else if (x == 4 && y == 0) || (x == 2 && y == 2) {
        Some(BlockType::Medium)
    } else if x % 2 == y % 2 {
        Some(BlockType::Regular)
    } else {
        None
    }
}

fn level3_cell_at(x: usize, y: usize) -> (r: Option<BlockType>)
    requires
        x < 9,
        y < 6,
    ensures
        r == level3_cell(x as int, y as int),
{
    if x == 4 && y == 3 {
        Some(BlockType::Strong)
    } else if x == 4 && y == 2 {
        Some(BlockType::SpawnPowerup)
    } else if (x == 4 && y == 0) || (x == 8 && y == 5) || (x == 5 && y == 0) {
        None
    } else if x == 0 || x == 8 || y == 0 || y == 5 {
        Some(BlockType::Medium)
    } else if (x == 2 || x == 6) && y > 1 {
        Some(BlockType::Regular)
    } else {
        None
    }
}

fn level4_cell_at(x: usize, y: usize) -> (r: Option<BlockType>)
    requires
        x < 10,
        y < 6,
    ensures
        r == level4_cell(x as int, y as int),
{
    if x == 5 && y == 1 {
        Some(BlockType::SpawnPowerup)
    } else if x == 5 && y == 3 {
        Some(BlockType::SpawnBallOnDeath)
    } else if 1 <= y && y <= 4 && y % 2 == 0 && x == 8 {
        Some(BlockType::Strong)
    } else if 1 <= y && y <= 4 && y % 2 == 1 && x == 1 {
        Some(BlockType::Strong)
    } else if y % 2 == 0 && x < 9 {
        Some(BlockType::Regular)
    } else if y % 2 == 1 && x > 0 {
        Some(BlockType::Regular)
    } else {
        None
    }
}

fn level5_cell_at(x: usize, y: usize) -> (r: Option<BlockType>)
    requires
        x < 11,
        y < 7,
    ensures
        r == level5_cell(x as int, y as int),
{
    let ring = min4_exec(y, 6 - y, x, 10 - x);
    if (x == 2 && y == 2) || (x == 8 && y == 4) {
        Some(BlockType::SpawnPowerup)
    } else if (x == 5 && y == 0) || (x == 5 && y == 6) || (x == 0 && y == 3) || (x == 10 && y
        == 3) {
        None
    } else if ring == 0 {
        Some(BlockType::Strong)
    } else if ring == 1 {
        Some(BlockType::Medium)
    } else if ring == 2 {
        Some(BlockType::Regular)
    } else {
        None
    }
}

fn level6_cell_at(x: usize, y: usize) -> (r: Option<BlockType>)
    requires
        x < 12,
        y < 7,
    ensures
        r == level6_cell(x as int, y as int),
{
    if x == 3 && y == 1 {
        Some(BlockType::SpawnPowerup)
    } else if x == 8 && y == 5 {
        Some(BlockType::SpawnBallOnDeath)
    } else if (y == 1 || y == 5) && (x == 1 || x == 6 || x == 10) {
        Some(BlockType::Medium)
    } else if (y == 0 || y == 6) && x % 4 == 0 {
        Some(BlockType::Strong)
    } else if y == 3 || x == 2 || x == 5 || x == 9 {
        None
    } else {
        Some(BlockType::Regular)
    }
}

fn level7_cell_at(x: usize, y: usize) -> (r: Option<BlockType>)
    requires
        x < 13,
        y < 8,
    ensures
        r == level7_cell(x as int, y as int),
{
    let dist = distance_exec(x, 6) + distance_exec(y, 4);
    if x == 6 && y == 1 {
        Some(BlockType::SpawnPowerup)
    } else if x == 6 && y == 6 {
        Some(BlockType::SpawnBallOnDeath)
    } else if x == y || x + y == 12 {
        None
    } else if dist <= 4 && dist % 2 == 0 {
        if dist == 0 {
            Some(BlockType::Strong)
        } else {
            Some(BlockType::Regular)
        }
    } else if dist <= 6 && x % 2 == y % 2 {
        Some(BlockType::Medium)
    } else {
        None
    }
}

fn level8_cell_at(x: usize, y: usize) -> (r: Option<BlockType>)
    requires
        x < 10,
        y < 8,
    ensures
        r == level8_cell(x as int, y as int),
{
    if x == 7 && y == 1 {
        Some(BlockType::SpawnPowerup)
    } else if x == 1 && y == 6 {
        Some(BlockType::SpawnBallOnDeath)
    } else if (x == 7 || x == 8) && (y == 5 || y == 6) {
        Some(BlockType::Strong)
    } else if (x == 3 && 5 <= y && y <= 7) || (x == 4 && y == 7) {
        Some(BlockType::Medium)
    } else if (x == 6 && y == 2) || (y == 3 && 5 <= x && x <= 7) {
        Some(BlockType::Medium)
    } else if x == 2 && 1 <= y && y <= 4 {
        Some(BlockType::Medium)
    } else if (x + y) % 4 != 0 {
        Some(BlockType::Regular)
    } else {
        None
    }
}

fn level9_cell_at(x: usize, y: usize) -> (r: Option<BlockType>)
    requires
        x < 11,
        y < 9,
    ensures
        r == level9_cell(x as int, y as int),
{
    if x == 5 && y == 2 {
        Some(BlockType::SpawnPowerup)
    } else if x == 5 && y == 6 {
        Some(BlockType::SpawnBallOnDeath)
    } else if y == 1 || y == 7 || x == 1 || x == 9 {
        None
    } else if 4 <= y && y <= 5 && 4 <= x && x <= 6 {
        Some(BlockType::Strong)
    } else if x % 3 == 0 || y % 3 == 0 {
        if (x == 3 || x == 6) && (y == 3 || y == 6) {
            Some(BlockType::Medium)
        } else {
            Some(BlockType::Regular)
        }
    } else {
        None
    }
}

fn level10_cell_at(x: usize, y: usize) -> (r: Option<BlockType>)
    requires
        x < 14,
        y < 10,
    ensures
        r == level10_cell(x as int, y as int),
{
    if (x == 7 && y == 2) || (x == 3 && y == 6) {
        Some(BlockType::SpawnPowerup)
    } else if x == 10 && y == 8 {
        Some(BlockType::SpawnBallOnDeath)
    } else if (x == 0 || x == 13) && (y == 0 || y == 9) {
        Some(BlockType::Medium)
    } else if (x == 3 && y == 2) || (x == 6 && y == 4) || (x == 9 && y == 6) || (x == 12 && y
        == 8) {
        Some(BlockType::Strong)
    } else if (x == 5 && y == 1) || (x == 2 && y == 3) || (x == 11 && y == 5) || (x == 8 && y
        == 7) || (x == 5 && y == 9) {
        Some(BlockType::Medium)
    } else if x == 2 || x == 5 || x == 8 || x == 11 {
        None
    } else if y % 2 == 1 && 1 <= x && x <= 12 {
        None
    } else {
        Some(BlockType::Regular)
    }
}

/// The cell at column `x`, row `y` of the base pattern of `level`.
fn base_cell_at(level: usize, x: usize, y: usize) -> (r: Option<BlockType>)
    requires
        1 <= level <= 10,
        x < pattern_width(level as int),
        y < pattern_height(level as int),
    ensures
        r == base_cell(level as int, x as int, y as int),
{
    if level == 1 {
        level1_cell_at(x, y)
    } else if level == 2 {
        level2_cell_at(x, y)
    } else if level == 3 {
        level3_cell_at(x, y)
    } else if level == 4 {
        level4_cell_at(x, y)
    } else if level == 5 {
        level5_cell_at(x, y)
    } else if level == 6 {
        level6_cell_at(x, y)
    } else if level == 7 {
        level7_cell_at(x, y)
    } else if level == 8 {
        level8_cell_at(x, y)
    } else if level == 9 {
        level9_cell_at(x, y)
    } else {
        level10_cell_at(x, y)
    }
}

/// A `width` by `height` grid of optional block types, row by row.
pub struct LevelLayout {
    pub width: usize,
    pub height: usize,
    pub pattern: Vec<Option<BlockType>>,
}

/// Whether some cell holds a power-up block.
pub open spec fn has_powerup(cells: Seq<Option<BlockType>>) -> bool {
    exists|k: int| 0 <= k < cells.len() && cells[k] == Some(BlockType::SpawnPowerup)
}

/// The number of occupied cells.
pub open spec fn occupied_count(cells: Seq<Option<BlockType>>) -> nat
    decreases cells.len(),
{
    if cells.len() == 0 {
        0
    } else {
        occupied_count(cells.drop_last()) + if cells.last() is Some {
            1nat
        } else {
            0nat
        }
    }
}

impl LevelLayout {
    pub open spec fn wf(self) -> bool {
        1 <= self.width <= 14 && 1 <= self.height <= 10 && self.pattern@.len() == self.width
            * self.height
    }

    /// The cell at column `x`, row `y`; `None` outside the grid.
    pub open spec fn cell(self, x: int, y: int) -> Option<BlockType> {
        if 0 <= x < self.width && 0 <= y < self.height {
            self.pattern@[y * self.width + x]
        } else {
            None
        }
    }

    /// Whether this is the base pattern of `level` (1 to 10).
    pub open spec fn is_base(self, level: int) -> bool {
        &&& self.width == pattern_width(level)
        &&& self.height == pattern_height(level)
        &&& self.pattern@.len() == self.width * self.height
        &&& forall|k: int|
            0 <= k < self.pattern@.len() ==> #[trigger] self.pattern@[k] == base_cell(
                level,
                k % (self.width as int),
                k / (self.width as int),
            )
    }

    pub fn get_block_at(&self, x: usize, y: usize) -> (r: Option<BlockType>)
        requires
            self.wf(),
        ensures
            r == self.cell(x as int, y as int),
    {
        if x < self.width && y < self.height {
            assert(y * self.width + x < self.width * self.height <= 140) by (nonlinear_arith)
                requires x < self.width, y < self.height, self.width <= 14, self.height <= 10;
            self.pattern[y * self.width + x]
        } else {
            None
        }
    }
}

proof fn lemma_cell_index(k: int, w: int, h: int)
    requires
        0 <= k < w * h,
        w > 0,
    ensures
        0 <= k % w < w,
        0 <= k / w < h,
{
    lemma_fundamental_div_mod(k, w);
    lemma_mod_pos_bound(k, w);
    assert(0 <= k / w < h) by (nonlinear_arith)
        requires k == w * (k / w) + k % w, 0 <= k % w < w, k < w * h, w > 0, k >= 0;
}

/// The base pattern of `level` (1 to 10) as a grid.
pub fn base_layout(level: usize) -> (r: LevelLayout)
    requires
        1 <= level <= 10,
    ensures
        r.wf(),
        r.is_base(level as int),
{
    let width: usize = if level == 1 {
        8
    } else if level == 2 || level == 3 {
        9
    } else if level == 4 || level == 8 {
        10
    } else if level == 5 || level == 9 {
        11
    } else if level == 6 {
        12
    } else if level == 7 {
        13
    } else {
        14
    };
    let height: usize = if level == 1 {
        4
    } else if level == 2 {
        5
    } else if level == 3 || level == 4 {
        6
    } else if level == 5 || level == 6 {
        7
    } else if level == 7 || level == 8 {
        8
    } else if level == 9 {
        9
    } else {
        10
    };
    let n: usize = width * height;
    let mut pattern: Vec<Option<BlockType>> = Vec::new();
    let mut k: usize = 0;
    while k < n
        invariant
            width == pattern_width(level as int),
            height == pattern_height(level as int),
            n == width * height,
            1 <= level <= 10,
            k <= n,
            pattern@.len() == k,
            forall|j: int|
                0 <= j < k ==> #[trigger] pattern@[j] == base_cell(
                    level as int,
                    j % (width as int),
                    j / (width as int),
                ),
        decreases n - k,
    {
        proof {
            lemma_cell_index(k as int, width as int, height as int);
        }
        let cell = base_cell_at(level, k % width, k / width);
        pattern.push(cell);
        k = k + 1;
    }
    LevelLayout { width, height, pattern }
}

/// Every base pattern holds a power-up block.
pub proof fn lemma_base_has_powerup(l: LevelLayout, level: int)
    requires
        1 <= level <= 10,
        l.is_base(level),
    ensures
        has_powerup(l.pattern@),
{
    let w = l.width as int;
    let k: int = if level == 1 {
        1 * w + 1
    } else if level == 2 {
        3 * w + 5
    } else if level == 3 {
        2 * w + 4
    } else if level == 4 {
        1 * w + 5
    } else if level == 5 {
        2 * w + 2
    } else if level == 6 {
        1 * w + 3
    } else if level == 7 {
        1 * w + 6
    } else if level == 8 {
        1 * w + 7
    } else if level == 9 {
        2 * w + 5
    } else {
        2 * w + 7
    };
    assert(l.pattern@[k] == Some(BlockType::SpawnPowerup));
}

/// How many regular cells a level past 10 upgrades, out of ten: this many
/// become strong and as many again become medium.
pub open spec fn difficulty(level: int) -> int {
    level / 10 + 1
}

/// A cell after an upgrade roll in `[0, 10)`: a regular block becomes strong
/// when the roll is below the level's difficulty, medium when below twice
/// that, and stays otherwise; other cells never change.
pub open spec fn upgraded(c: Option<BlockType>, roll: int, level: int) -> Option<BlockType> {
    if c == Some(BlockType::Regular) {
        if roll < difficulty(level) {
            Some(BlockType::Strong)
        } else if roll < 2 * difficulty(level) {
            Some(BlockType::Medium)
        } else {
            c
        }
    } else {
        c
    }
}

/// Upgrades each cell of `layout` with the roll at the same index.
pub fn upgrade_layout(layout: &mut LevelLayout, level: usize, rolls: &Vec<usize>)
    requires
        old(layout).wf(),
        rolls@.len() == old(layout).pattern@.len(),
    ensures
        final(layout).width == old(layout).width,
        final(layout).height == old(layout).height,
        final(layout).pattern@.len() == old(layout).pattern@.len(),
        forall|k: int|
            0 <= k < final(layout).pattern@.len() ==> #[trigger] final(layout).pattern@[k]
                == upgraded(old(layout).pattern@[k], rolls@[k] as int, level as int),
{
    let n = layout.pattern.len();
    let d: usize = level / 10 + 1;
    let mut k: usize = 0;
    while k < n
        invariant
            n == old(layout).pattern@.len(),
            rolls@.len() == n,
            d == difficulty(level as int),
            layout.width == old(layout).width,
            layout.height == old(layout).height,
            layout.pattern@.len() == n,
            k <= n,
            forall|j: int|
                0 <= j < k ==> #[trigger] layout.pattern@[j] == upgraded(
                    old(layout).pattern@[j],
                    rolls@[j] as int,
                    level as int,
                ),
            forall|j: int| k <= j < n ==> #[trigger] layout.pattern@[j] == old(layout).pattern@[j],
        decreases n - k,
    {
        if layout.pattern[k] == Some(BlockType::Regular) {
            if rolls[k] < d {
                layout.pattern.set(k, Some(BlockType::Strong));
            } else if rolls[k] < 2 * d {
                layout.pattern.set(k, Some(BlockType::Medium));
            }
        }
        k = k + 1;
    }
}

/// Draws one upgrade roll in `[0, 10)` per cell.
fn draw_rolls(n: usize) -> (r: Vec<usize>)
    ensures
        r@.len() == n,
        forall|k: int| 0 <= k < n ==> r@[k] < 10,
{
    let mut rolls: Vec<usize> = Vec::new();
    let mut k: usize = 0;
    while k < n
        invariant
            k <= n,
            rolls@.len() == k,
            forall|j: int| 0 <= j < k ==> rolls@[j] < 10,
        decreases n - k,
    {
        rolls.push(random_below(10));
        k = k + 1;
    }
    rolls
}


proof fn lemma_occupied_count_bound(cells: Seq<Option<BlockType>>)
    ensures
        occupied_count(cells) <= cells.len(),
    decreases cells.len(),
{
    if cells.len() > 0 {
        lemma_occupied_count_bound(cells.drop_last());
    }
}

proof fn lemma_occupied_prefix(cells: Seq<Option<BlockType>>, j: int)
    requires
        0 <= j <= cells.len(),
    ensures
        occupied_count(cells.take(j)) <= occupied_count(cells),
    decreases cells.len(),
{
    if j < cells.len() {
        lemma_occupied_prefix(cells.drop_last(), j);
        assert(cells.drop_last().take(j) =~= cells.take(j));
    } else {
        assert(cells.take(j) =~= cells);
    }
}

/// Whether some cell holds a power-up block.
pub fn contains_powerup(cells: &Vec<Option<BlockType>>) -> (r: bool)
    ensures
        r == has_powerup(cells@),
{
    let mut k: usize = 0;
    while k < cells.len()
        invariant
            k <= cells@.len(),
            forall|j: int| 0 <= j < k ==> cells@[j] != Some(BlockType::SpawnPowerup),
        decreases cells@.len() - k,
    {
        if cells[k] == Some(BlockType::SpawnPowerup) {
            return true;
        }
        k = k + 1;
    }
    false
}

/// The number of occupied cells.
pub fn count_occupied(cells: &Vec<Option<BlockType>>) -> (r: usize)
    ensures
        r == occupied_count(cells@),
        r <= cells@.len(),
{
    let mut count: usize = 0;
    let mut k: usize = 0;
    while k < cells.len()
        invariant
            k <= cells@.len(),
            count == occupied_count(cells@.take(k as int)),
            count <= k,
        decreases cells@.len() - k,
    {
        assert(cells@.take(k + 1).drop_last() =~= cells@.take(k as int));
        if cells[k].is_some() {
            count = count + 1;
        }
        k = k + 1;
    }
    assert(cells@.take(k as int) =~= cells@);
    count
}

/// Makes sure some cell holds a power-up: when none does and some cell is
/// occupied, the occupied cell of rank `pick` (counting in row order from
/// zero) becomes one. Otherwise the layout is left alone.
pub fn ensure_powerup(layout: &mut LevelLayout, pick: usize)
    requires
        old(layout).wf(),
        !has_powerup(old(layout).pattern@) && occupied_count(old(layout).pattern@) > 0 ==> pick
            < occupied_count(old(layout).pattern@),
    ensures
        final(layout).width == old(layout).width,
        final(layout).height == old(layout).height,
        has_powerup(old(layout).pattern@) || occupied_count(old(layout).pattern@) == 0
            ==> final(layout).pattern@ == old(layout).pattern@,
        !has_powerup(old(layout).pattern@) && occupied_count(old(layout).pattern@) > 0 ==> exists|
            k: int,
        |
            0 <= k < old(layout).pattern@.len() && old(layout).pattern@[k] is Some
                && occupied_count(old(layout).pattern@.take(k)) == pick && final(layout).pattern@
                == old(layout).pattern@.update(k, Some(BlockType::SpawnPowerup)),
        occupied_count(old(layout).pattern@) > 0 ==> has_powerup(final(layout).pattern@),
{
    if contains_powerup(&layout.pattern) {
        return;
    }
    let n = layout.pattern.len();
    let mut seen: usize = 0;
    let mut k: usize = 0;
    while k < n
        invariant
            n == old(layout).pattern@.len(),
            *layout == *old(layout),
            !has_powerup(old(layout).pattern@),
            occupied_count(old(layout).pattern@) > 0 ==> pick < occupied_count(
                old(layout).pattern@,
            ),
            k <= n,
            seen == occupied_count(old(layout).pattern@.take(k as int)),
            seen <= pick,
        decreases n - k,
    {
        assert(layout.pattern@.take(k + 1).drop_last() =~= layout.pattern@.take(k as int));
        if layout.pattern[k].is_some() {
            if seen == pick {
                proof {
                    lemma_occupied_prefix(old(layout).pattern@, k + 1);
                }
                layout.pattern.set(k, Some(BlockType::SpawnPowerup));
                assert(layout.pattern@[k as int] == Some(BlockType::SpawnPowerup));
                return;
            }
            seen = seen + 1;
        }
        k = k + 1;
    }
    assert(old(layout).pattern@.take(k as int) =~= old(layout).pattern@);
}

/// `l` is the base pattern of a level past 10 with its cells upgraded by
/// `rolls`, one roll in `[0, 10)` per cell.
pub open spec fn upgraded_from(l: LevelLayout, rolls: Seq<usize>, level: int) -> bool {
    &&& rolls.len() == l.pattern@.len()
    &&& forall|k: int| 0 <= k < rolls.len() ==> #[trigger] rolls[k] < 10
    &&& forall|k: int|
        0 <= k < l.pattern@.len() ==> #[trigger] l.pattern@[k] == upgraded(
            base_cell(base_level(level), k % (l.width as int), k / (l.width as int)),
            rolls[k] as int,
            level,
        )
}

/// A layout that level `level` may have: the base pattern for levels 1 to
/// 10; past that, the wrapped-around base pattern upgraded by some rolls.
/// It always holds a power-up cell.
pub open spec fn is_layout_of(l: LevelLayout, level: int) -> bool {
    &&& l.wf()
    &&& has_powerup(l.pattern@)
    &&& l.width == pattern_width(base_level(level))
    &&& l.height == pattern_height(base_level(level))
    &&& level <= 10 ==> l.is_base(level)
    &&& level > 10 ==> exists|rolls: Seq<usize>| #[trigger] upgraded_from(l, rolls, level)
}

/// The layout of `level` (at least 1). Levels 1 to 10 get their base pattern;
/// a higher level gets the base pattern of `(level - 1) % 10 + 1` with its
/// regular cells randomly upgraded. Every layout holds a power-up block.
pub fn get_level_layout(level: usize) -> (r: LevelLayout)
    requires
        level >= 1,
    ensures
        r.wf(),
        has_powerup(r.pattern@),
        is_layout_of(r, level as int),
        r.width == pattern_width(base_level(level as int)),
        r.height == pattern_height(base_level(level as int)),
        level <= 10 ==> r.is_base(level as int),
        level > 10 ==> forall|k: int|
            0 <= k < r.pattern@.len() ==> {
                let c = base_cell(base_level(level as int), k % (r.width as int), k / (r.width as int));
                &&& c != Some(BlockType::Regular) ==> #[trigger] r.pattern@[k] == c
                &&& c == Some(BlockType::Regular) ==> (r.pattern@[k] == Some(BlockType::Regular)
                    || r.pattern@[k] == Some(BlockType::Medium) || r.pattern@[k] == Some(
                    BlockType::Strong,
                ))
            },
{
    let base: usize = if level <= 10 { level } else { (level - 1) % 10 + 1 };
    let mut layout = base_layout(base);
    proof {
        lemma_base_has_powerup(layout, base as int);
    }
    if level > 10 {
        let ghost before = layout.pattern@;
        let rolls = draw_rolls(layout.pattern.len());
        upgrade_layout(&mut layout, level, &rolls);
        proof {
            let k = choose|k: int| 0 <= k < before.len() && before[k] == Some(BlockType::SpawnPowerup);
            assert(layout.pattern@[k] == Some(BlockType::SpawnPowerup));
            assert(base as int == base_level(level as int));
            assert(upgraded_from(layout, rolls@, level as int));
        }
    }
    proof {
        lemma_occupied_count_bound(layout.pattern@);
    }
    let count = count_occupied(&layout.pattern);
    if !contains_powerup(&layout.pattern) && count > 0 {
        assert(count <= 140) by (nonlinear_arith)
            requires count <= layout.width * layout.height, layout.width <= 14, layout.height <= 10;
        let pick = random_below(count);
        ensure_powerup(&mut layout, pick);
    }
    layout
}

} // verus!
