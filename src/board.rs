//! Placing a level layout's blocks in the play area.
use vstd::prelude::*;
use vstd::arithmetic::div_mod::{lemma_fundamental_div_mod, lemma_mod_pos_bound};
use crate::block::{starting_lives, Block, BlockType};
use crate::geometry::{Point, Rect, UNITS_PER_PIXEL, SCREEN_LIMIT};
use crate::layout::{get_level_layout, is_layout_of, LevelLayout};
use crate::player::MIN_SCREEN_WIDTH;

verus! {

/// Gap between neighbouring blocks.
pub const BOARD_PADDING: i64 = 2 * UNITS_PER_PIXEL;

/// Distance from the top of the play area to the first row of blocks.
pub const BOARD_TOP: i64 = 50 * UNITS_PER_PIXEL;

/// Width of one block: nine tenths of the play area, less the gaps, shared
/// among `columns` blocks.
pub open spec fn cell_width(screen_width: int, columns: int) -> int {
    (screen_width * 9 / 10 - BOARD_PADDING * (columns - 1)) / columns
}

/// Height of one block: the reference block's aspect ratio, 40 to 100.
pub open spec fn cell_height(screen_width: int, columns: int) -> int {
    cell_width(screen_width, columns) * 2 / 5
}

/// Left edge of the board, which is centred horizontally.
pub open spec fn board_left(screen_width: int, columns: int) -> int {
    (screen_width - (columns * cell_width(screen_width, columns) + (columns - 1) * BOARD_PADDING))
        / 2
}

/// The block placed for cell `k` (row by row) of `l`.
pub open spec fn cell_block(l: LevelLayout, screen_width: int, k: int) -> Block {
    let w = l.width as int;
    let bw = cell_width(screen_width, w);
    let bh = cell_height(screen_width, w);
    let t = l.pattern@[k].unwrap();
    Block {
        rect: Rect {
            x: (board_left(screen_width, w) + (k % w) * (bw + BOARD_PADDING)) as i64,
            y: (BOARD_TOP + (k / w) * (bh + BOARD_PADDING)) as i64,
            w: bw as i64,
            h: bh as i64,
        },
        lives: starting_lives(t),
        block_type: t,
    }
}

/// The blocks for the first `n` cells of `l`, one per occupied cell, in row order.
pub open spec fn blocks_of(l: LevelLayout, screen_width: int, n: int) -> Seq<Block>
    decreases n,
{
    if n <= 0 {
        Seq::empty()
    } else if l.pattern@[n - 1] is Some {
        blocks_of(l, screen_width, n - 1).push(cell_block(l, screen_width, n - 1))
    } else {
        blocks_of(l, screen_width, n - 1)
    }
}

proof fn lemma_cell_geometry(sw: int, w: int, h: int, k: int)
    requires
        MIN_SCREEN_WIDTH <= sw <= SCREEN_LIMIT,
        1 <= w <= 14,
        1 <= h <= 10,
        0 <= k < w * h,
    ensures
        cell_width(sw, w) >= 1,
        cell_height(sw, w) >= 1,
        cell_width(sw, w) <= sw,
        0 <= board_left(sw, w),
        board_left(sw, w) + (k % w) * (cell_width(sw, w) + BOARD_PADDING) <= sw,
        BOARD_TOP + (k / w) * (cell_height(sw, w) + BOARD_PADDING) <= 10 * sw,
{
    let avail = sw * 9 / 10;
    let bw = cell_width(sw, w);
    let bh = cell_height(sw, w);
    assert(avail >= 45000);
    assert(avail <= sw);
    let inner = avail - BOARD_PADDING * (w - 1);
    assert(BOARD_PADDING * (w - 1) <= 26000 && (w - 1) * BOARD_PADDING == BOARD_PADDING * (w - 1))
        by (nonlinear_arith)
        requires 1 <= w <= 14, BOARD_PADDING == 2000;
    assert(inner >= 19000);
    lemma_fundamental_div_mod(inner, w);
    lemma_mod_pos_bound(inner, w);
    assert(bw == inner / w);
    assert(bw >= 1000 && w * bw <= inner && bw <= inner) by (nonlinear_arith)
        requires inner == w * (inner / w) + inner % w, 0 <= inner % w < w, bw == inner / w,
            1 <= w <= 14, inner >= 19000;
    assert(bh >= 1 && bh <= bw);
    let board = w * bw + (w - 1) * BOARD_PADDING;
    assert(board <= avail);
    lemma_fundamental_div_mod(k, w);
    lemma_mod_pos_bound(k, w);
    let col = k % w;
    let row = k / w;
    assert(0 <= row < h) by (nonlinear_arith)
        requires k == w * row + col, 0 <= col < w, k < w * h, w > 0, k >= 0;
    assert(col * (bw + BOARD_PADDING) <= (w - 1) * (bw + BOARD_PADDING)) by (nonlinear_arith)
        requires 0 <= col <= w - 1, bw >= 1;
    assert(row * (bh + BOARD_PADDING) <= 9 * (bh + BOARD_PADDING)) by (nonlinear_arith)
        requires 0 <= row <= 9, bh >= 1;
    assert(bh <= sw);
    assert((w - 1) * (bw + BOARD_PADDING) == w * bw + (w - 1) * BOARD_PADDING - bw)
        by (nonlinear_arith);
}

proof fn lemma_blocks_wf(l: LevelLayout, sw: int, n: int)
    requires
        l.wf(),
        MIN_SCREEN_WIDTH <= sw <= SCREEN_LIMIT,
        0 <= n <= l.pattern@.len(),
    ensures
        forall|i: int|
            0 <= i < blocks_of(l, sw, n).len() ==> (#[trigger] blocks_of(l, sw, n)[i]).wf(),
    decreases n,
{
    if n > 0 {
        lemma_blocks_wf(l, sw, n - 1);
        if l.pattern@[n - 1] is Some {
            lemma_cell_geometry(sw, l.width as int, l.height as int, n - 1);
            let b = cell_block(l, sw, n - 1);
            assert(b.wf());
            let prev = blocks_of(l, sw, n - 1);
            assert(blocks_of(l, sw, n) == prev.push(b));
            assert forall|i: int| 0 <= i < blocks_of(l, sw, n).len() implies (#[trigger] blocks_of(
                l,
                sw,
                n,
            )[i]).wf() by {
                if i < prev.len() {
                    assert(blocks_of(l, sw, n)[i] == prev[i]);
                }
            }
        } else {
            assert(blocks_of(l, sw, n) == blocks_of(l, sw, n - 1));
        }
    }
}

/// A layout with a power-up cell yields a power-up block.
pub proof fn lemma_blocks_keep_powerup(l: LevelLayout, sw: int, n: int, k: int)
    requires
        0 <= k < n <= l.pattern@.len(),
        l.pattern@[k] == Some(BlockType::SpawnPowerup),
    ensures
        exists|i: int|
            0 <= i < blocks_of(l, sw, n).len() && (#[trigger] blocks_of(l, sw, n)[i]).block_type
                == BlockType::SpawnPowerup,
    decreases n,
{
    if k < n - 1 {
        lemma_blocks_keep_powerup(l, sw, n - 1, k);
        let i = choose|i: int|
            0 <= i < blocks_of(l, sw, n - 1).len() && (#[trigger] blocks_of(
                l,
                sw,
                n - 1,
            )[i]).block_type == BlockType::SpawnPowerup;
        if l.pattern@[n - 1] is Some {
            assert(blocks_of(l, sw, n)[i] == blocks_of(l, sw, n - 1)[i]);
        }
    } else {
        let last = blocks_of(l, sw, n).len() - 1;
        assert(blocks_of(l, sw, n)[last] == cell_block(l, sw, k));
    }
}

/// The blocks of layout `l` placed in a play area `screen_width` wide: one
/// per occupied cell, in row order, at its place on the centred board.
pub fn layout_blocks(l: &LevelLayout, screen_width: i64) -> (r: Vec<Block>)
    requires
        l.wf(),
        MIN_SCREEN_WIDTH <= screen_width <= SCREEN_LIMIT,
    ensures
        r@ == blocks_of(*l, screen_width as int, l.pattern@.len() as int),
        forall|i: int| 0 <= i < r@.len() ==> (#[trigger] r@[i]).wf(),
{
    let w: i64 = l.width as i64;
    let avail: i64 = screen_width * 9 / 10;
    let bw: i64 = (avail - BOARD_PADDING * (w - 1)) / w;
    let bh: i64 = bw * 2 / 5;
    proof {
        assert(l.width * l.height >= 1) by (nonlinear_arith)
            requires l.width >= 1, l.height >= 1;
        lemma_cell_geometry(screen_width as int, w as int, l.height as int, 0);
    }
    let left: i64 = (screen_width - (w * bw + (w - 1) * BOARD_PADDING)) / 2;
    let n = l.pattern.len();
    assert(n <= 140) by (nonlinear_arith)
        requires n == l.width * l.height, l.width <= 14, l.height <= 10;
    let mut blocks: Vec<Block> = Vec::new();
    let mut k: usize = 0;
    while k < n
        invariant
            l.wf(),
            MIN_SCREEN_WIDTH <= screen_width <= SCREEN_LIMIT,
            w == l.width,
            bw == cell_width(screen_width as int, w as int),
            bh == cell_height(screen_width as int, w as int),
            left == board_left(screen_width as int, w as int),
            n == l.pattern@.len(),
            n <= 140,
            k <= n,
            blocks@ == blocks_of(*l, screen_width as int, k as int),
        decreases n - k,
    {
        match l.pattern[k] {
            Some(t) => {
                proof {
                    lemma_cell_geometry(screen_width as int, w as int, l.height as int, k as int);
                }
                let col_u: usize = k % l.width;
                let row_u: usize = k / l.width;
                assert(row_u <= k) by (nonlinear_arith)
                    requires row_u == k / l.width, l.width >= 1;
                let col: i64 = col_u as i64;
                let row: i64 = row_u as i64;
                assert(col == (k as int) % (w as int));
                assert(row == (k as int) / (w as int));
                let pos = Point {
                    x: left + col * (bw + BOARD_PADDING),
                    y: BOARD_TOP + row * (bh + BOARD_PADDING),
                };
                blocks.push(Block::new(pos, t, Point { x: bw, y: bh }));
            },
            None => {},
        }
        k = k + 1;
    }
    proof {
        lemma_blocks_wf(*l, screen_width as int, n as int);
    }
    blocks
}

/// The blocks that level `level` may start with in a play area
/// `screen_width` wide: those of one of its layouts, one per occupied cell
/// in row order, each with its type's full lives.
pub open spec fn level_blocks(blocks: Seq<Block>, level: int, screen_width: int) -> bool {
    exists|l: LevelLayout|
        is_layout_of(l, level) && blocks == #[trigger] blocks_of(l, screen_width, l.pattern@.len() as int)
}

/// Replaces `blocks` with those of the layout of `level`. At least one of
/// them spawns a power-up.
pub fn init_blocks(blocks: &mut Vec<Block>, level: usize, screen_width: i64)
    requires
        level >= 1,
        MIN_SCREEN_WIDTH <= screen_width <= SCREEN_LIMIT,
    ensures
        level_blocks(final(blocks)@, level as int, screen_width as int),
        final(blocks)@.len() >= 1,
        forall|i: int| 0 <= i < final(blocks)@.len() ==> (#[trigger] final(blocks)@[i]).wf(),
        exists|i: int|
            0 <= i < final(blocks)@.len() && (#[trigger] final(blocks)@[i]).block_type
                == BlockType::SpawnPowerup,
{
    let layout = get_level_layout(level);
    *blocks = layout_blocks(&layout, screen_width);
    proof {
        let k = choose|k: int|
            0 <= k < layout.pattern@.len() && layout.pattern@[k] == Some(BlockType::SpawnPowerup);
        lemma_blocks_keep_powerup(layout, screen_width as int, layout.pattern@.len() as int, k);
        assert(blocks@ == blocks_of(layout, screen_width as int, layout.pattern@.len() as int));
    }
}

} // verus!
