use vstd::prelude::*;
use crate::nibbles::{nib, nib64, color64, group_at, align, lemma_align, lemma_nib_shr, lemma_low_groups, lemma_pack_4_5_4_3, lemma_widen_color};
use crate::board::Board;

verus! {

/// A cell holds a purple, green or yellow pixel (one of its bits `0xE` is set).
pub open spec fn colored(v: u32) -> bool {
    v & 0xE != 0
}

/// The color bits of a cell: `0x2` purple, `0x4` green, `0x8` yellow.
pub open spec fn color(v: u32) -> u32 {
    v & 0xE
}

/// Row numbers are computed in `u32`, wrapping around: below row 0 lies
/// row `u32::MAX`, which, like every row past 10, is empty.
pub open spec fn row_index(r: int) -> int {
    r % 0x1_0000_0000
}

/// The cell in column `c` of row `r`.
pub open spec fn cell(b: Board, c: int, r: int) -> u32 {
    group_at(b.row(r), c)
}

/// The neighbourhood of `(x, y)` read by the mosaic rule, numbered
/// ```text
/// row y+1:    0  1  2  3
/// row y:    4  5 [6] 7  8
/// row y-1:    9 10 11 12
/// row y-2:      13 14 15
/// ```
/// Cell 6 is `(x, y)`. Rows `y + 1` and `y - 1` are shifted half a cell
/// against row `y`: on an even row cell 10 is column `x` of the row below,
/// on an odd row column `x - 1`.
pub open spec fn mosaic_cell(b: Board, x: u32, y: u32, n: int) -> u32 {
    let odd = (y % 2) as int;
    if n < 4 {
        cell(b, x - 1 - odd + n, row_index(y + 1))
    } else if n < 9 {
        cell(b, x - 2 + (n - 4), y as int)
    } else if n < 13 {
        cell(b, x - 1 - odd + (n - 9), row_index(y - 1))
    } else {
        cell(b, x - 1 + (n - 13), row_index(y - 2))
    }
}

pub open spec fn colored_at(b: Board, x: u32, y: u32, n: int) -> bool {
    colored(mosaic_cell(b, x, y, n))
}

pub open spec fn color_at(b: Board, x: u32, y: u32, n: int) -> u32 {
    color(mosaic_cell(b, x, y, n))
}

/// The color that completes a mosaic whose other two cells have colors `a`
/// and `b`: the same color when they agree, otherwise `0xE - a - b` (the third
/// color when `a` and `b` are two different colors), computed modulo 2^32.
pub open spec fn missing_color(a: u32, b: u32) -> u32 {
    if a == b { a } else { ((0xE - a - b) % 0x1_0000_0000) as u32 }
}

/// The pixels allowed at `(x, y)` so that no mosaic is broken, as a set of
/// bits: `0x1` white, `0x2` purple, `0x4` green, `0x8` yellow.
pub open spec fn mosaic_rule(b: Board, x: u32, y: u32) -> u32 {
    let c = |n: int| colored_at(b, x, y, n);
    let k = |n: int| color_at(b, x, y, n);
    // (x, y) completes the triangle with the two cells below it
    if c(11) && c(10) && !(c(5) || c(7) || c(9) || c(12) || c(13) || c(14) || c(15)) {
        missing_color(k(11), k(10))
    // (x, y) completes the triangle with its left neighbour and the cell below-left
    } else if c(5) && c(10) && !(c(0) || c(4) || c(7) || c(9) || c(11) || c(13) || c(14)) {
        missing_color(k(5), k(10))
    // (x, y) completes the triangle with its right neighbour and the cell below-right
    } else if c(11) && c(7) && !(c(3) || c(5) || c(8) || c(10) || c(12) || c(14) || c(15)) {
        missing_color(k(11), k(7))
    // (x, y) touches two colored cells
    } else if (if c(11) { 1int } else { 0 }) + (if c(7) { 1int } else { 0 })
        + (if c(10) { 1int } else { 0 }) + (if c(5) { 1int } else { 0 }) > 1 {
        0x1
    // (x, y) borders a colored cell that already has a colored neighbour
    } else if (c(11) && (c(7) || c(10) || c(12) || c(14) || c(15)))
        || (c(7) && (c(3) || c(8) || c(11) || c(12)))
        || (c(10) && (c(5) || c(9) || c(11) || c(13) || c(14)))
        || (c(5) && (c(0) || c(4) || c(9) || c(10))) {
        0x1
    // a colored cell below, but the third cell of its mosaic is white
    } else if (c(11) && mosaic_cell(b, x, y, 7) == 1) || (c(10) && mosaic_cell(b, x, y, 5) == 1) {
        0x1
    // a lone colored neighbour: continue its mosaic with a color
    } else if c(11) || c(7) || c(10) || c(5) {
        0xE
    } else {
        0xF
    }
}

proof fn lemma_mosaic_masks(w: u64)
    by (bit_vector)
    ensures
        (0xEEE_E00E_0E0E0_0000 & w == 0) == (color64(w, 5) == 0 && color64(w, 7) == 0
            && color64(w, 9) == 0 && color64(w, 12) == 0 && color64(w, 13) == 0
            && color64(w, 14) == 0 && color64(w, 15) == 0),
        (0x0EE_0E0E_0E00E_000E & w == 0) == (color64(w, 0) == 0 && color64(w, 4) == 0
            && color64(w, 7) == 0 && color64(w, 9) == 0 && color64(w, 11) == 0
            && color64(w, 13) == 0 && color64(w, 14) == 0),
        (0xEE0_E0E0_E00E0_E000 & w == 0) == (color64(w, 3) == 0 && color64(w, 5) == 0
            && color64(w, 8) == 0 && color64(w, 10) == 0 && color64(w, 12) == 0
            && color64(w, 14) == 0 && color64(w, 15) == 0),
        (0xEE0_E0E0_0E000_0000 & w == 0) == (color64(w, 7) == 0 && color64(w, 10) == 0
            && color64(w, 12) == 0 && color64(w, 14) == 0 && color64(w, 15) == 0),
        (0x000_EE00_E0000_E000 & w == 0) == (color64(w, 3) == 0 && color64(w, 8) == 0
            && color64(w, 11) == 0 && color64(w, 12) == 0),
        (0x0EE_0E0E_000E0_0000 & w == 0) == (color64(w, 5) == 0 && color64(w, 9) == 0
            && color64(w, 11) == 0 && color64(w, 13) == 0 && color64(w, 14) == 0),
        (0x000_00EE_0000E_000E & w == 0) == (color64(w, 0) == 0 && color64(w, 4) == 0
            && color64(w, 9) == 0 && color64(w, 10) == 0),
{
}

proof fn lemma_mosaic_single_masks(w: u64)
    by (bit_vector)
    ensures
        (w & 0x000_0E00_00000_0000) >> 44 == color64(w, 11),
        (w & 0x000_00E0_00000_0000) >> 40 == color64(w, 10),
        (w & 0x000_0000_000E0_0000) >> 20 == color64(w, 5),
        (w & 0x000_0000_0E000_0000) >> 28 == color64(w, 7),
        (0x000_0E00_00000_0000 & w == 0) == (color64(w, 11) == 0),
        (0x000_00E0_00000_0000 & w == 0) == (color64(w, 10) == 0),
        (0x000_0000_000E0_0000 & w == 0) == (color64(w, 5) == 0),
        (0x000_0000_0E000_0000 & w == 0) == (color64(w, 7) == 0),
        (0x000_0000_0F000_0000 & w == 0x000_0000_01000_0000) == (nib64(w, 7) == 1),
        (0x000_0000_000F0_0000 & w == 0x000_0000_00010_0000) == (nib64(w, 5) == 1),
        color64(w, 11) <= 0xE,
        color64(w, 10) <= 0xE,
        color64(w, 7) <= 0xE,
        color64(w, 5) <= 0xE,
{
}


/// Reading the row above, at, below and two below `y` as `get` does.
proof fn lemma_row_indices(y: u32)
    ensures
        vstd::wrapping::u32_specs::wrapping_add(y, 1) as int == row_index(y + 1),
        vstd::wrapping::u32_specs::wrapping_sub(y, 1) as int == row_index(y - 1),
        vstd::wrapping::u32_specs::wrapping_sub(y, 2) as int == row_index(y - 2),
        y as int == row_index(y as int),
{
}

/// Which pixels may go on `(x, y)` without breaking a mosaic: the exact color
/// that completes a mosaic, white only next to a mosaic that must not grow,
/// any color next to a lone colored pixel, or anything. The result is a set of
/// bits (`0x1` white, `0x2` purple, `0x4` green, `0x8` yellow), given by
/// `mosaic_rule`.
pub fn elim_mosaic_breaking_moves(x: u32, y: u32, board: &Board) -> (allowed: u32)
    requires
        x <= 9,
    ensures
        allowed == mosaic_rule(*board, x, y),
{
    let mut r0 = board.get(y.wrapping_add(1));
    let mut r1 = board.get(y);
    let mut r2 = board.get(y.wrapping_sub(1));
    let mut r3 = board.get(y.wrapping_sub(2));
    let ghost w0 = r0;
    let ghost w1 = r1;
    let ghost w2 = r2;
    let ghost w3 = r3;

    // a shift on an unsigned integer is logical: groups moved out are gone
    let mask0: u32 = 0x0000FFFFu32;
    let mask1: u32 = 0x000FFFFFu32;
    let mask2: u32 = 0x00000FFFu32;

    if x > 2 {
        r0 = r0 >> (x - 2) * 4;
        r1 = r1 >> (x - 2) * 4;
        r2 = r2 >> (x - 2) * 4;
        r3 = r3 >> (x - 2) * 4;
    } else if x < 2 {
        r0 = r0 << (2 - x) * 4;
        r1 = r1 << (2 - x) * 4;
        r2 = r2 << (2 - x) * 4;
        r3 = r3 << (2 - x) * 4;
    }
    assert(r0 == align(w0, x) && r1 == align(w1, x) && r2 == align(w2, x) && r3 == align(w3, x));
    let ghost s0 = r0;
    let ghost s2 = r2;
    let ghost s3 = r3;

    r3 = r3 >> 4;

    if y % 2 == 0 {
        r0 = r0 >> 4;
        r2 = r2 >> 4;
    }

    let a0 = mask0 & r0;
    let a1 = mask1 & r1;
    let a2 = mask0 & r2;
    let a3 = mask2 & r3;
    let working: u64 = (a0 as u64) | ((a1 as u64) << 4 * 4) | ((a2 as u64) << 9 * 4) | ((a3 as u64) << 13 * 4);

    proof {
        let b = *board;
        lemma_row_indices(y);
        assert(w0 == b.row(row_index(y + 1)));
        assert(w1 == b.row(y as int));
        assert(w2 == b.row(row_index(y - 1)));
        assert(w3 == b.row(row_index(y - 2)));
        lemma_low_groups(r0, 0);
        lemma_low_groups(r1, 0);
        lemma_low_groups(r2, 0);
        lemma_low_groups(r3, 0);
        assert forall|n: u64| n < 16 implies nib64(working, n) == mosaic_cell(b, x, y, n as int) as u64 by {
            lemma_pack_4_5_4_3(a0, a1, a2, a3, working, n);
            if n < 4 {
                let k = n as u32;
                lemma_low_groups(r0, k);
                if y % 2 == 0 {
                    lemma_nib_shr(s0, 1, k);
                    lemma_align(w0, x, (k + 1) as u32);
                } else {
                    lemma_align(w0, x, k);
                }
            } else if n < 9 {
                let k = (n - 4) as u32;
                lemma_low_groups(r1, k);
                lemma_align(w1, x, k);
            } else if n < 13 {
                let k = (n - 9) as u32;
                lemma_low_groups(r2, k);
                if y % 2 == 0 {
                    lemma_nib_shr(s2, 1, k);
                    lemma_align(w2, x, (k + 1) as u32);
                } else {
                    lemma_align(w2, x, k);
                }
            } else {
                let k = (n - 13) as u32;
                lemma_low_groups(r3, k);
                lemma_nib_shr(s3, 1, k);
                lemma_align(w3, x, (k + 1) as u32);
            }
        }
        assert forall|n: u64| n < 16 implies #[trigger] color64(working, n) == color_at(b, x, y, n as int) as u64
            && (nib64(working, n) == 1 <==> mosaic_cell(b, x, y, n as int) == 1) by {
            lemma_widen_color(mosaic_cell(b, x, y, n as int));
        }
        lemma_mosaic_masks(working);
        lemma_mosaic_single_masks(working);
    }

    // (x, y) is the last cell of a mosaic
    let v1_and_0: u64 = 0xEEE_E00E_0E0E0_0000;
    let v1_color_1: u64 = 0x000_0E00_00000_0000;
    let v1_color_2: u64 = 0x000_00E0_00000_0000;

    let v2_and_0: u64 = 0x0EE_0E0E_0E00E_000E;
    let v2_color_1: u64 = 0x000_0000_000E0_0000;
    let v2_color_2: u64 = 0x000_00E0_00000_0000;

    let v3_and_0: u64 = 0xEE0_E0E0_E00E0_E000;
    let v3_color_1: u64 = 0x000_0E00_00000_0000;
    let v3_color_2: u64 = 0x000_0000_0E000_0000;

    if v1_and_0 & working == 0 && v1_color_1 & working != 0 && v1_color_2 & working != 0 {
        let color_1 = (working & v1_color_1) >> 11 * 4;
        let color_2 = (working & v1_color_2) >> 10 * 4;
        // completing the mosaic is the only legal move
        return missing(color_1, color_2);
    }

    if v2_and_0 & working == 0 && v2_color_1 & working != 0 && v2_color_2 & working != 0 {
        let color_1 = (working & v2_color_1) >> 5 * 4;
        let color_2 = (working & v2_color_2) >> 10 * 4;
        return missing(color_1, color_2);
    }

    if v3_and_0 & working == 0 && v3_color_1 & working != 0 && v3_color_2 & working != 0 {
        let color_1 = (working & v3_color_1) >> 11 * 4;
        let color_2 = (working & v3_color_2) >> 7 * 4;
        return missing(color_1, color_2);
    }

    //  x x x x
    // x x 0 x x
    //  x x x x
    //   x x x
    let w1_and_0: u64 = 0xEE0_E0E0_0E000_0000;
    let w1_color: u64 = 0x000_0E00_00000_0000;

    let w2_and_0: u64 = 0x000_EE00_E0000_E000;
    let w2_color: u64 = 0x000_0000_0E000_0000;

    let w3_and_0: u64 = 0x0EE_0E0E_000E0_0000;
    let w3_color: u64 = 0x000_00E0_00000_0000;

    let w4_and_0: u64 = 0x000_00EE_0000E_000E;
    let w4_color: u64 = 0x000_0000_000E0_0000;

    // (x, y) touches two colored cells
    let mut touching: u32 = 0;
    if w1_color & working != 0 { touching += 1; }
    if w2_color & working != 0 { touching += 1; }
    if w3_color & working != 0 { touching += 1; }
    if w4_color & working != 0 { touching += 1; }

    if touching > 1 {
        return 0x1;
    }

    // (x, y) borders a colored cell that is already joined to another one
    if (w1_and_0 & working != 0 && w1_color & working != 0)
        || (w2_and_0 & working != 0 && w2_color & working != 0)
        || (w3_and_0 & working != 0 && w3_color & working != 0)
        || (w4_and_0 & working != 0 && w4_color & working != 0) {
        return 0x1;
    }

    // a colored cell lies below (x, y), but the third cell of that mosaic is white
    let o2: u64 = 0x000_0000_0F000_0000;
    let o2_eq: u64 = 0x000_0000_01000_0000;
    let o4: u64 = 0x000_0000_000F0_0000;
    let o4_eq: u64 = 0x000_0000_00010_0000;
    if (w1_color & working != 0 && o2 & working == o2_eq) || (w3_color & working != 0 && o4 & working == o4_eq) {
        return 0x1;
    }

    // (x, y) borders a single colored cell with no colored neighbour: continue that mosaic
    if w1_color & working != 0 || w2_color & working != 0 || w3_color & working != 0 || w4_color & working != 0 {
        return 0xE;
    }

    0xF
}

/// The color completing a mosaic, from the color bits of its other two cells,
/// with `0xE - a - b` computed modulo 2^32.
fn missing(color_1: u64, color_2: u64) -> (m: u32)
    requires
        color_1 <= 0xE,
        color_2 <= 0xE,
    ensures
        m == missing_color(color_1 as u32, color_2 as u32),
{
    if color_1 == color_2 {
        color_1 as u32
    } else {
        0xEu32.wrapping_sub(color_1 as u32).wrapping_sub(color_2 as u32)
    }
}


/// The kinds still in supply, as bits: `0x1` white, `0x2` purple, `0x4`
/// green, `0x8` yellow.
pub open spec fn supply_mask(b: Board) -> u32 {
    ((if b.white_pixels_left != 0 { 0x1int } else { 0 })
        + (if b.purple_pixels_left != 0 { 0x2int } else { 0 })
        + (if b.green_pixels_left != 0 { 0x4int } else { 0 })
        + (if b.yellow_pixels_left != 0 { 0x8int } else { 0 })) as u32
}

/// The allowed pixels of `potential_move` (a set of bits) whose kind is still
/// in supply.
pub fn enforce_pixels_left(board: &Board, potential_move: u32) -> (allowed: u32)
    ensures
        allowed == potential_move & supply_mask(*board),
{
    let mut mask: u32 = if board.white_pixels_left != 0 { 0x1 } else { 0x0 };
    if board.purple_pixels_left != 0 { mask += 0x2; }
    if board.green_pixels_left != 0 { mask += 0x4; }
    if board.yellow_pixels_left != 0 { mask += 0x8; }
    potential_move & mask
}

/// A cell holds a pixel (its lowest bit is set).
pub open spec fn occupied(v: u32) -> bool {
    v & 1 != 0
}

/// A pixel may go on `(x, y)`: on the bottom row anywhere but column 6; on an
/// odd row in column 0, or where column `x - 1` of the row below is occupied;
/// on an even row where column `x + 1` of the row below is occupied and `x`
/// is not 6.
pub open spec fn placeable(b: Board, x: u32, y: u32) -> bool {
    if y == 0 {
        x != 6
    } else if y % 2 == 1 {
        x == 0 || occupied(cell(b, x - 1, y - 1))
    } else {
        occupied(cell(b, x + 1, y - 1)) && x != 6
    }
}

proof fn lemma_low_bit(w: u32, k: u32)
    by (bit_vector)
    requires
        k < 8,
    ensures
        (w >> ((4 * k) as u32)) & 0x1 == nib(w, k) & 1,
        w & 0x1 == nib(w, 0) & 1,
{
}

/// Whether a pixel may be placed on `(x, y)` (see `placeable`).
pub fn is_placeable(board: &Board, x: u32, y: u32) -> (r: bool)
    requires
        y == 0 || (y % 2 == 1 && x <= 8) || (y % 2 == 0 && x <= 6),
    ensures
        r == placeable(*board, x, y),
{
    if y == 0 {
        return x != 6;
    }
    let below = board.get(y - 1);
    if y % 2 == 1 {
        if x == 0 {
            return true;
        }
        proof {
            lemma_low_bit(below, (x - 1) as u32);
        }
        if x == 1 {
            return below & 0x1 != 0;
        }
        return (below >> ((x - 1) * 4)) & 0x1 != 0;
    } else {
        proof {
            lemma_low_bit(below, (x + 1) as u32);
        }
        return ((below >> ((x + 1) * 4)) & 0x1 != 0) && x != 6;
    }
}

} // verus!
