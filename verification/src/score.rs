use vstd::prelude::*;
use crate::nibbles::{nib64, color64, shift_groups, lemma_shift_groups, lemma_low_groups, lemma_pack_3_4_4_3, lemma_group_mask, lemma_widen_color};
use crate::board::Board;
use crate::rules::{cell, color, row_index};

verus! {

/// `src` shifted right by `rhs` bits, or left by `-rhs` bits when `rhs` is negative.
pub fn right_signed(src: u32, rhs: i32) -> (r: u32)
    requires
        -32 < rhs < 32,
    ensures
        r == (if rhs >= 0 { src >> (rhs as u32) } else { src << ((-rhs) as u32) }),
{
    if rhs >= 0 {
        src >> (rhs as u32)
    } else {
        src << ((-rhs) as u32)
    }
}

/// The neighbourhood of `(x, y)` that the score reads, numbered
/// ```text
/// row y+2:     11 12 13
/// row y+1:   7  8  9 10
/// row y:      3 [4] 5  6
/// row y-1:     0  1  2
/// ```
/// Cell 4 is `(x, y)`. On an even row, cell 0 is column `x` of row `y - 1`,
/// cell 7 column `x` of row `y + 1` and cell 11 column `x` of row `y + 2`; on
/// an odd row they are columns `x - 1`, `x - 2` and `x - 1`.
pub open spec fn score_cell(b: Board, x: int, y: int, n: int) -> u32 {
    let odd = y % 2;
    if n < 3 {
        cell(b, x - odd + n, row_index(y - 1))
    } else if n < 7 {
        cell(b, x - 1 + (n - 3), y)
    } else if n < 11 {
        cell(b, x - 2 * odd + (n - 7), y + 1)
    } else if n < 14 {
        cell(b, x - odd + (n - 11), y + 2)
    } else {
        0
    }
}

pub open spec fn score_color(b: Board, x: int, y: int, n: int) -> u32 {
    color(score_cell(b, x, y, n))
}

/// Three colors make a mosaic when they are all the same or add up to `0xE`
/// (purple, green and yellow once each).
pub open spec fn mosaic_colors(c1: u32, c2: u32, c3: u32) -> bool {
    (c1 == c2 && c2 == c3) || c1 + c2 + c3 == 0xE
}

/// A mosaic on cells 4, 5 and 9, with none of the cells around it colored.
/// The three cells count as colored by the weighted sum of their color bits
/// being above that of three purple cells.
pub open spec fn mosaic_a(b: Board, x: int, y: int) -> bool {
    let k = |n: int| score_color(b, x, y, n);
    &&& k(0) == 0 && k(1) == 0 && k(2) == 0 && k(3) == 0 && k(6) == 0 && k(8) == 0
        && k(10) == 0 && k(12) == 0 && k(13) == 0
    &&& k(9) * 0x10_0000_0000int + k(5) * 0x10_0000int + k(4) * 0x1_0000int > 0x00_000_0200_0220_000int
    &&& mosaic_colors(k(9), k(5), k(4))
}

/// A mosaic on cells 4, 8 and 9, with none of the cells around it colored,
/// tested in the same way.
pub open spec fn mosaic_b(b: Board, x: int, y: int) -> bool {
    let k = |n: int| score_color(b, x, y, n);
    &&& k(0) == 0 && k(1) == 0 && k(3) == 0 && k(5) == 0 && k(7) == 0 && k(10) == 0
        && k(11) == 0 && k(12) == 0 && k(13) == 0
    &&& k(9) * 0x10_0000_0000int + k(8) * 0x1_0000_0000int + k(4) * 0x1_0000int > 0x00_000_0220_0020_000int
    &&& mosaic_colors(k(9), k(8), k(4))
}

/// Points earned at `(x, y)`: 3 for a pixel there, 10 for each mosaic found there.
pub open spec fn cell_points(b: Board, x: int, y: int) -> int {
    (if cell(b, x, y) != 0 { 3int } else { 0 })
        + (if mosaic_a(b, x, y) { 10int } else { 0 })
        + (if mosaic_b(b, x, y) { 10int } else { 0 })
}

/// Number of cells in row `y`: six on even rows, seven on odd rows.
pub open spec fn row_width(y: int) -> int {
    if y % 2 == 0 { 6 } else { 7 }
}

/// Points of the first `n` cells of row `y`.
pub open spec fn row_points(b: Board, y: int, n: int) -> int
    decreases n,
{
    if n <= 0 { 0 } else { row_points(b, y, n - 1) + cell_points(b, n - 1, y) }
}

/// Points of the rows below `rows`.
pub open spec fn board_points(b: Board, rows: int) -> int
    decreases rows,
{
    if rows <= 0 { 0 } else { board_points(b, rows - 1) + row_points(b, rows - 1, row_width(rows - 1)) }
}

/// The score of a board: the points of every cell of its eleven rows.
pub open spec fn score(b: Board) -> int {
    board_points(b, 11)
}

proof fn lemma_score_masks(w: u64)
    by (bit_vector)
    ensures
        (0x00_EE0_E0E0_E00E_EEE & w == 0) == (color64(w, 0) == 0 && color64(w, 1) == 0
            && color64(w, 2) == 0 && color64(w, 3) == 0 && color64(w, 6) == 0
            && color64(w, 8) == 0 && color64(w, 10) == 0 && color64(w, 12) == 0
            && color64(w, 13) == 0),
        (0x00_EEE_E00E_0E0E_0EE & w == 0) == (color64(w, 0) == 0 && color64(w, 1) == 0
            && color64(w, 3) == 0 && color64(w, 5) == 0 && color64(w, 7) == 0
            && color64(w, 10) == 0 && color64(w, 11) == 0 && color64(w, 12) == 0
            && color64(w, 13) == 0),
        0x00_000_0E00_0EE0_000 & w == (color64(w, 9) << 36) | (color64(w, 5) << 20) | (color64(w, 4) << 16),
        0x00_000_0EE0_00E0_000 & w == (color64(w, 9) << 36) | (color64(w, 8) << 32) | (color64(w, 4) << 16),
        (0x00_000_0E00_0000_000 & w) >> 36 == color64(w, 9),
        (0x00_000_0000_0E00_000 & w) >> 20 == color64(w, 5),
        (0x00_000_0000_00E0_000 & w) >> 16 == color64(w, 4),
        (0x00_000_00E0_0000_000 & w) >> 32 == color64(w, 8),
{
}

proof fn lemma_color_bound(w: u64, n: u64)
    by (bit_vector)
    ensures
        color64(w, n) <= 0xE,
{
}

proof fn lemma_weighted(a: u64, b: u64, c: u64)
    by (bit_vector)
    requires
        a <= 0xE,
        b <= 0xE,
        c <= 0xE,
    ensures
        ((a << 36) | (b << 20) | (c << 16)) == a * 0x10_0000_0000 + b * 0x10_0000 + c * 0x1_0000,
        ((a << 36) | (b << 32) | (c << 16)) == a * 0x10_0000_0000 + b * 0x1_0000_0000 + c * 0x1_0000,
{
}


proof fn lemma_score_window(b: Board, x: u32, y: u32, p0: u32, p1: u32, p2: u32, p3: u32, w: u64)
    requires
        y <= 10,
        x < 8,
        p0 == (shift_groups(b.row(row_index(y - 1)), x - (y % 2) as int) & 0xFFF),
        p1 == (shift_groups(b.row(y as int), x - 1) & 0xFFFF),
        p2 == (shift_groups(b.row(y + 1), x - 2 * (y % 2) as int) & 0xFFFF),
        p3 == (shift_groups(b.row(y + 2), x - (y % 2) as int) & 0xFFF),
        w == (p0 as u64) | (p1 as u64) << 12 | (p2 as u64) << 28 | (p3 as u64) << 44,
    ensures
        forall|n: u64| n < 16 ==> #[trigger] color64(w, n) == score_color(b, x as int, y as int, n as int) as u64,
{
    let odd = (y % 2) as int;
    let below = b.row(row_index(y - 1));
    let g = b.row(y as int);
    let above = b.row(y + 1);
    let above2 = b.row(y + 2);
    lemma_low_groups(shift_groups(below, x - odd), 0);
    lemma_low_groups(shift_groups(g, x - 1), 0);
    lemma_low_groups(shift_groups(above, x - 2 * odd), 0);
    lemma_low_groups(shift_groups(above2, x - odd), 0);
    assert forall|n: u64| n < 16 implies nib64(w, n) == score_cell(b, x as int, y as int, n as int) as u64 by {
        lemma_pack_3_4_4_3(p0, p1, p2, p3, w, n);
        if n < 3 {
            lemma_low_groups(shift_groups(below, x - odd), n as u32);
            lemma_shift_groups(below, x - odd, n as u32);
        } else if n < 7 {
            lemma_low_groups(shift_groups(g, x - 1), (n - 3) as u32);
            lemma_shift_groups(g, x - 1, (n - 3) as u32);
        } else if n < 11 {
            lemma_low_groups(shift_groups(above, x - 2 * odd), (n - 7) as u32);
            lemma_shift_groups(above, x - 2 * odd, (n - 7) as u32);
        } else if n < 14 {
            lemma_low_groups(shift_groups(above2, x - odd), (n - 11) as u32);
            lemma_shift_groups(above2, x - odd, (n - 11) as u32);
        }
    }
    assert forall|n: u64| n < 16 implies #[trigger] color64(w, n) == score_color(b, x as int, y as int, n as int) as u64 by {
        lemma_widen_color(score_cell(b, x as int, y as int, n as int));
    }
}

proof fn lemma_score_tests(b: Board, x: u32, y: u32, w: u64)
    requires
        forall|n: u64| n < 16 ==> #[trigger] color64(w, n) == score_color(b, x as int, y as int, n as int) as u64,
    ensures
        (0x00_EE0_E0E0_E00E_EEE & w == 0 && 0x00_000_0E00_0EE0_000 & w > 0x00_000_0200_0220_000)
            == ({
                let k = |n: int| score_color(b, x as int, y as int, n);
                &&& k(0) == 0 && k(1) == 0 && k(2) == 0 && k(3) == 0 && k(6) == 0 && k(8) == 0
                    && k(10) == 0 && k(12) == 0 && k(13) == 0
                &&& k(9) * 0x10_0000_0000int + k(5) * 0x10_0000int + k(4) * 0x1_0000int > 0x00_000_0200_0220_000int
            }),
        (0x00_EEE_E00E_0E0E_0EE & w == 0 && 0x00_000_0EE0_00E0_000 & w > 0x00_000_0220_0020_000)
            == ({
                let k = |n: int| score_color(b, x as int, y as int, n);
                &&& k(0) == 0 && k(1) == 0 && k(3) == 0 && k(5) == 0 && k(7) == 0 && k(10) == 0
                    && k(11) == 0 && k(12) == 0 && k(13) == 0
                &&& k(9) * 0x10_0000_0000int + k(8) * 0x1_0000_0000int + k(4) * 0x1_0000int > 0x00_000_0220_0020_000int
            }),
        (0x00_000_0E00_0000_000 & w) >> 36 == score_color(b, x as int, y as int, 9) as u64,
        (0x00_000_0000_0E00_000 & w) >> 20 == score_color(b, x as int, y as int, 5) as u64,
        (0x00_000_0000_00E0_000 & w) >> 16 == score_color(b, x as int, y as int, 4) as u64,
        (0x00_000_00E0_0000_000 & w) >> 32 == score_color(b, x as int, y as int, 8) as u64,
        score_color(b, x as int, y as int, 9) <= 0xE,
        score_color(b, x as int, y as int, 8) <= 0xE,
        score_color(b, x as int, y as int, 5) <= 0xE,
        score_color(b, x as int, y as int, 4) <= 0xE,
{
    lemma_score_masks(w);
    lemma_color_bound(w, 9);
    lemma_color_bound(w, 8);
    lemma_color_bound(w, 5);
    lemma_color_bound(w, 4);
    lemma_weighted(color64(w, 9), color64(w, 5), color64(w, 4));
    lemma_weighted(color64(w, 9), color64(w, 8), color64(w, 4));
    assert(color64(w, 0) == score_color(b, x as int, y as int, 0) as u64);
    assert(color64(w, 1) == score_color(b, x as int, y as int, 1) as u64);
    assert(color64(w, 2) == score_color(b, x as int, y as int, 2) as u64);
    assert(color64(w, 3) == score_color(b, x as int, y as int, 3) as u64);
    assert(color64(w, 6) == score_color(b, x as int, y as int, 6) as u64);
    assert(color64(w, 7) == score_color(b, x as int, y as int, 7) as u64);
    assert(color64(w, 10) == score_color(b, x as int, y as int, 10) as u64);
    assert(color64(w, 11) == score_color(b, x as int, y as int, 11) as u64);
    assert(color64(w, 12) == score_color(b, x as int, y as int, 12) as u64);
    assert(color64(w, 13) == score_color(b, x as int, y as int, 13) as u64);
}

/// The neighbourhood of `(x, y)` packed into one word, group `n` holding cell
/// `n` of `score_cell`; the contract states the color bits of every group.
fn score_window(board: &Board, x: u32, y: u32) -> (working: u64)
    requires
        y <= 10,
        x < row_width(y as int),
    ensures
        forall|n: u64| n < 16 ==> #[trigger] color64(working, n) == score_color(*board, x as int, y as int, n as int) as u64,
{
    let ghost b = *board;
    let xi = x as i32;
    let below = board.get(y.wrapping_sub(1));
    let g = board.get(y);
    let above = board.get(y + 1);
    let above2 = board.get(y + 2);
    let p0: u32;
    let p1: u32;
    let p2: u32;
    let p3: u32;
    if y % 2 == 0 {
        p0 = (below >> (x * 4)) & 0xFFF;
        p1 = right_signed(g, (xi - 1) * 4) & 0xFFFF;
        p2 = (above >> (x * 4)) & 0xFFFF;
        p3 = (above2 >> (x * 4)) & 0xFFF;
    } else {
        p0 = right_signed(below, (xi - 1) * 4) & 0xFFF;
        p1 = right_signed(g, (xi - 1) * 4) & 0xFFFF;
        p2 = right_signed(above, (xi - 2) * 4) & 0xFFFF;
        p3 = right_signed(above2, (xi - 1) * 4) & 0xFFF;
    }
    let working: u64 = (p0 as u64) | (p1 as u64) << (4 * 3) | (p2 as u64) << (4 * 7) | (p3 as u64) << (4 * 11);
    proof {
        let odd = (y % 2) as int;
        assert(vstd::wrapping::u32_specs::wrapping_sub(y, 1) as int == row_index(y - 1));
        lemma_score_window(b, x, y, p0, p1, p2, p3, working);
    }
    working
}

/// The points earned at `(x, y)`, read from the board's words.
fn points_at(board: &Board, x: u32, y: u32) -> (points: i64)
    requires
        y <= 10,
        x < row_width(y as int),
    ensures
        points == cell_points(*board, x as int, y as int),
{
    let mut points: i64 = 0;
    let g = board.get(y);
    if (0xFu32 << (x * 4)) & g != 0 {
        points += 3;
    }
    proof {
        lemma_group_mask(g, x);
    }

    let and_0_1: u64 = 0x00_EE0_E0E0_E00E_EEE;
    let mask_1: u64 = 0x00_000_0E00_0EE0_000;
    let and_0_2: u64 = 0x00_EEE_E00E_0E0E_0EE;
    let mask_2: u64 = 0x00_000_0EE0_00E0_000;

    let mask_1_color_1: u64 = 0x00_000_0E00_0000_000;
    let mask_1_color_2: u64 = 0x00_000_0000_0E00_000;
    let mask_1_color_3: u64 = 0x00_000_0000_00E0_000;

    let mask_2_color_1: u64 = 0x00_000_0E00_0000_000;
    let mask_2_color_2: u64 = 0x00_000_00E0_0000_000;
    let mask_2_color_3: u64 = 0x00_000_0000_00E0_000;

    let working = score_window(board, x, y);
    proof {
        lemma_score_tests(*board, x, y, working);
    }
    if and_0_1 & working == 0 && mask_1 & working > 0x00_000_0200_0220_000 {
        let color1 = (mask_1_color_1 & working) >> (9 * 4);
        let color2 = (mask_1_color_2 & working) >> (5 * 4);
        let color3 = (mask_1_color_3 & working) >> (4 * 4);

        if (color1 == color2 && color2 == color3)
            || 0xEu64.wrapping_sub(color1).wrapping_sub(color2).wrapping_sub(color3) == 0 {
            points += 10;
        }
    }

    if and_0_2 & working == 0 && mask_2 & working > 0x00_000_0220_0020_000 {
        let color1 = (mask_2_color_1 & working) >> (9 * 4);
        let color2 = (mask_2_color_2 & working) >> (8 * 4);
        let color3 = (mask_2_color_3 & working) >> (4 * 4);

        if (color1 == color2 && color2 == color3)
            || 0xEu64.wrapping_sub(color1).wrapping_sub(color2).wrapping_sub(color3) == 0 {
            points += 10;
        }
    }
    points
}


/// Every cell earns at most 23 points.
pub proof fn lemma_points_bounds(b: Board, y: int, n: int)
    requires
        0 <= n,
    ensures
        0 <= row_points(b, y, n) <= 23 * n,
    decreases n,
{
    if n > 0 {
        lemma_points_bounds(b, y, n - 1);
    }
}

proof fn lemma_board_points_bound(b: Board, rows: int)
    requires
        0 <= rows,
    ensures
        0 <= board_points(b, rows) <= 161 * rows,
    decreases rows,
{
    if rows > 0 {
        lemma_board_points_bound(b, rows - 1);
        lemma_points_bounds(b, rows - 1, row_width(rows - 1));
    }
}

/// A score lies between 0 and 1771 (23 points on each of 77 cells).
pub proof fn lemma_score_bound(b: Board)
    ensures
        0 <= score(b) <= 1771,
{
    lemma_board_points_bound(b, 11);
}

/// A count of scored boards `p` after `n` more boards are scored, wrapping
/// around in `u32`.
pub open spec fn counted(p: u32, n: int) -> u32 {
    ((p + n) % 0x1_0000_0000) as u32
}

/// Counting `a` boards and then `b` more is counting `a + b`.
pub proof fn lemma_counted_add(p: u32, a: int, b: int)
    requires
        0 <= a,
        0 <= b,
    ensures
        counted(counted(p, a), b) == counted(p, a + b),
{
    vstd::arithmetic::div_mod::lemma_add_mod_noop_right(b, p + a, 0x1_0000_0000);
}

/// The score of the board (see `score`): 3 points for every pixel and 10 for
/// every mosaic found around a cell. `positions`, the count of boards scored,
/// grows by one.
pub fn calc_score(board: &Board, positions: &mut u32) -> (points: i64)
    ensures
        points == score(*board),
        *final(positions) == counted(*old(positions), 1),
{
    let mut points: i64 = 0;
    let mut y: u32 = 0;
    while y <= 10
        invariant
            y <= 11,
            points == board_points(*board, y as int),
            0 <= points <= 161 * y,
        decreases 11 - y,
    {
        let width: u32 = if y % 2 == 0 { 6 } else { 7 };
        let mut x: u32 = 0;
        while x < width
            invariant
                y <= 10,
                width as int == row_width(y as int),
                x <= width,
                points == board_points(*board, y as int) + row_points(*board, y as int, x as int),
                0 <= board_points(*board, y as int) <= 161 * y,
            decreases width - x,
        {
            proof {
                lemma_points_bounds(*board, y as int, x as int);
            }
            points += points_at(board, x, y);
            x += 1;
        }
        proof {
            lemma_points_bounds(*board, y as int, width as int);
        }
        y += 1;
    }
    *positions = positions.wrapping_add(1);
    points
}

} // verus!
