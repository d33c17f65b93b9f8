use vstd::prelude::*;
use crate::nibbles::nib;
use vstd::wrapping::{u32_specs, u8_specs};

verus! {

/// The pixel board: eleven rows of a hexagonal grid, each row a word with one
/// 4-bit group per cell (column 0 in the lowest group), the stack height of
/// every column, and how many pixels of each kind are left to play.
///
/// Cell codes: `0x0` empty, and for a pixel the lowest bit is set:
/// white `0x1`, purple `0x3`, green `0x5`, yellow `0x9`.
/// Even rows hold six cells (columns 0 to 5), odd rows seven (0 to 6).
#[derive(Copy, Clone, Debug)]
pub struct Board {
    pub r0: u32,
    pub r1: u32,
    pub r2: u32,
    pub r3: u32,
    pub r4: u32,
    pub r5: u32,
    pub r6: u32,
    pub r7: u32,
    pub r8: u32,
    pub r9: u32,
    pub r10: u32,
    /// 4-bit group `c` is the number of cells already stacked in column `c`.
    pub heights: u32,
    pub white_pixels_left: u8,
    pub purple_pixels_left: u8,
    pub green_pixels_left: u8,
    pub yellow_pixels_left: u8,
}

/// The row that a write at `index` lands in: rows 0 to 9 by number, any
/// larger index in row 10.
pub open spec fn write_slot(index: u32) -> int {
    if index < 10 { index as int } else { 10 }
}

impl Board {
    /// Row `r` of the board; there is nothing outside rows 0 to 10.
    pub open spec fn row(self, r: int) -> u32 {
        if r == 0 { self.r0 }
        else if r == 1 { self.r1 }
        else if r == 2 { self.r2 }
        else if r == 3 { self.r3 }
        else if r == 4 { self.r4 }
        else if r == 5 { self.r5 }
        else if r == 6 { self.r6 }
        else if r == 7 { self.r7 }
        else if r == 8 { self.r8 }
        else if r == 9 { self.r9 }
        else if r == 10 { self.r10 }
        else { 0 }
    }

    /// The board with row `r` (0 to 10) replaced by `v`.
    pub open spec fn with_row(self, r: int, v: u32) -> Board {
        if r == 0 { Board { r0: v, ..self } }
        else if r == 1 { Board { r1: v, ..self } }
        else if r == 2 { Board { r2: v, ..self } }
        else if r == 3 { Board { r3: v, ..self } }
        else if r == 4 { Board { r4: v, ..self } }
        else if r == 5 { Board { r5: v, ..self } }
        else if r == 6 { Board { r6: v, ..self } }
        else if r == 7 { Board { r7: v, ..self } }
        else if r == 8 { Board { r8: v, ..self } }
        else if r == 9 { Board { r9: v, ..self } }
        else { Board { r10: v, ..self } }
    }

    /// The stack height of column `c`.
    pub open spec fn height(self, c: u32) -> u32 {
        nib(self.heights, c)
    }

    pub fn get_mut(&mut self, index: u32) -> (slot: &mut u32)
        ensures
            *slot == old(self).row(write_slot(index)),
            *final(self) == old(self).with_row(write_slot(index), *final(slot)),
    {
        match index {
            0 => &mut self.r0,
            1 => &mut self.r1,
            2 => &mut self.r2,
            3 => &mut self.r3,
            4 => &mut self.r4,
            5 => &mut self.r5,
            6 => &mut self.r6,
            7 => &mut self.r7,
            8 => &mut self.r8,
            9 => &mut self.r9,
            _ => &mut self.r10,
        }
    }

    pub fn get(&self, index: u32) -> (r: u32)
        ensures
            r == self.row(index as int),
    {
        match index {
            0 => self.r0,
            1 => self.r1,
            2 => self.r2,
            3 => self.r3,
            4 => self.r4,
            5 => self.r5,
            6 => self.r6,
            7 => self.r7,
            8 => self.r8,
            9 => self.r9,
            10 => self.r10,
            _ => 0,
        }
    }
}


/// The kinds of pixel.
#[derive(Clone, Copy, Debug)]
pub enum Pickle {
    White,
    Purple,
    Green,
    Yellow,
}

/// The cell code of a pixel.
pub open spec fn pickle_code(p: Pickle) -> u32 {
    match p {
        Pickle::White => 1,
        Pickle::Purple => 3,
        Pickle::Green => 5,
        Pickle::Yellow => 9,
    }
}

impl Pickle {
    pub fn to_u32(&self) -> (code: u32)
        ensures
            code == pickle_code(*self),
    {
        match self {
            Pickle::White => 1,
            Pickle::Purple => 3,
            Pickle::Green => 5,
            Pickle::Yellow => 9,
        }
    }
}

/// A move: a pixel with cell code `color` dropped onto column `column`.
#[derive(Debug, Clone, Copy)]
pub struct Move {
    pub column: u32,
    pub color: u32,
}

/// The empty board, with 30 white pixels and 5 of each color to play.
pub open spec fn empty_board() -> Board {
    Board {
        r0: 0, r1: 0, r2: 0, r3: 0, r4: 0, r5: 0, r6: 0, r7: 0, r8: 0, r9: 0, r10: 0,
        heights: 0,
        white_pixels_left: 30,
        purple_pixels_left: 5,
        green_pixels_left: 5,
        yellow_pixels_left: 5,
    }
}

/// The amount by which a move on `column` raises the heights word: one cell,
/// or two on column 6, which has no cell on even rows.
pub open spec fn height_step(column: u32) -> u32 {
    (if column == 6 { 2u32 } else { 1u32 }) << ((4 * column) as u32)
}

/// The board after dropping `pixel` on `column`: the pixel is or-ed into the
/// column's group of the row at the column's height (rows past 9 land in row
/// 10), the height word grows by `height_step(column)` (wrapping), and the
/// supply of the pixel's kind, if it is one of the four codes, shrinks by one
/// (wrapping).
pub open spec fn inserted(b: Board, column: u32, pixel: u32) -> Board {
    let slot = write_slot(b.height(column));
    let placed = b.with_row(slot, b.row(slot) | (pixel << ((4 * column) as u32)));
    Board {
        heights: u32_specs::wrapping_add(b.heights, height_step(column)),
        white_pixels_left: if pixel == 1 { u8_specs::wrapping_sub(b.white_pixels_left, 1) } else { b.white_pixels_left },
        purple_pixels_left: if pixel == 3 { u8_specs::wrapping_sub(b.purple_pixels_left, 1) } else { b.purple_pixels_left },
        green_pixels_left: if pixel == 5 { u8_specs::wrapping_sub(b.green_pixels_left, 1) } else { b.green_pixels_left },
        yellow_pixels_left: if pixel == 9 { u8_specs::wrapping_sub(b.yellow_pixels_left, 1) } else { b.yellow_pixels_left },
        ..placed
    }
}

pub proof fn lemma_height_mask(h: u32, c: u32)
    by (bit_vector)
    requires
        c < 8,
    ensures
        (h & (0xFu32 << ((4 * c) as u32))) >> ((4 * c) as u32) == nib(h, c),
{
}

/// Drops `pixel` on `column` (see `inserted`).
pub fn insert(board: &mut Board, column: u32, pixel: u32)
    requires
        column < 8,
    ensures
        *final(board) == inserted(*old(board), column, pixel),
{
    let mask = 0xFu32 << column * 4;
    let height = (board.heights & mask) >> column * 4;
    proof {
        lemma_height_mask(old(board).heights, column);
    }
    let row = board.get_mut(height);
    *row = *row | (pixel << column * 4);
    board.heights = board.heights.wrapping_add((if column == 6 { 0x2u32 } else { 0x1u32 }) << column * 4);
    match pixel {
        0x1 => board.white_pixels_left = board.white_pixels_left.wrapping_sub(1),
        0x3 => board.purple_pixels_left = board.purple_pixels_left.wrapping_sub(1),
        0x5 => board.green_pixels_left = board.green_pixels_left.wrapping_sub(1),
        0x9 => board.yellow_pixels_left = board.yellow_pixels_left.wrapping_sub(1),
        _ => (),
    }
}

impl Board {
    pub fn new() -> (b: Self)
        ensures
            b == empty_board(),
    {
        Self {
            r0: 0,
            r1: 0,
            r2: 0,
            r3: 0,
            r4: 0,
            r5: 0,
            r6: 0,
            r7: 0,
            r8: 0,
            r9: 0,
            r10: 0,
            heights: 0,
            white_pixels_left: 30,
            purple_pixels_left: 5,
            green_pixels_left: 5,
            yellow_pixels_left: 5,
        }
    }

    pub fn apply_move(&mut self, m: Move)
        requires
            m.column < 8,
        ensures
            *final(self) == inserted(*old(self), m.column, m.color),
    {
        insert(self, m.column, m.color);
    }
}

/// A row word holding `pickle` in column `x` and nothing else.
pub fn make_row(x: u32, pickle: Pickle) -> (r: u32)
    requires
        x < 8,
    ensures
        r == pickle_code(pickle) << ((4 * x) as u32),
{
    let mut r: u32 = pickle.to_u32();
    r = r << (x * 4);
    r
}

/// `b` with each `(x, y, pickle)` of `pickles`, in order, or-ed into column `x`
/// of row `y` (rows past 9 taking row 10).
pub open spec fn placed(b: Board, pickles: Seq<(u32, u32, Pickle)>) -> Board
    decreases pickles.len(),
{
    if pickles.len() == 0 {
        b
    } else {
        let prev = placed(b, pickles.drop_last());
        let (x, y, p) = pickles.last();
        let slot = write_slot(y);
        prev.with_row(slot, prev.row(slot) | (pickle_code(p) << ((4 * x) as u32)))
    }
}

/// The empty board with the given pixels set (see `placed`).
pub fn make_board(pickles: Vec<(u32, u32, Pickle)>) -> (r: Board)
    requires
        forall|i: int| 0 <= i < pickles.len() ==> (#[trigger] pickles[i]).0 < 8,
    ensures
        r == placed(empty_board(), pickles@),
{
    let mut r = Board::new();
    let mut i: usize = 0;
    while i < pickles.len()
        invariant
            i <= pickles.len(),
            forall|j: int| 0 <= j < pickles.len() ==> (#[trigger] pickles[j]).0 < 8,
            r == placed(empty_board(), pickles@.subrange(0, i as int)),
        decreases pickles.len() - i,
    {
        let (x, y, pickle) = pickles[i];
        let row = r.get_mut(y);
        *row = *row | make_row(x, pickle);
        proof {
            assert(pickles@.subrange(0, i + 1).drop_last() =~= pickles@.subrange(0, i as int));
        }
        i += 1;
    }
    proof {
        assert(pickles@.subrange(0, pickles.len() as int) =~= pickles@);
    }
    r
}


/// The binary digit `i` (0 the lowest) of `v`, as a character.
pub open spec fn bit_char(v: u32, i: u32) -> char {
    if (v >> i) & 1 == 1 { '1' } else { '0' }
}

/// The four binary digits of `v`, most significant first.
pub open spec fn binary4(v: u32) -> Seq<char> {
    seq![bit_char(v, 3), bit_char(v, 2), bit_char(v, 1), bit_char(v, 0)]
}

/// Appends the binary digit `i` of `v` to `s`.
fn push_bit(s: &mut String, v: u32, i: u32)
    requires
        i < 32,
    ensures
        final(s)@ == old(s)@.push(bit_char(v, i)),
{
    proof {
        reveal_strlit("1");
        reveal_strlit("0");
    }
    if (v >> i) & 1 == 1 {
        s.append("1");
    } else {
        s.append("0");
    }
}

/// The cell in column `x` of the row word `row`, as four binary digits.
pub fn get_column(row: u32, x: u32) -> (s: String)
    requires
        x < 8,
    ensures
        s@ == binary4(nib(row, x)),
{
    let mask: u32 = 0x0000000F;
    let res = (row >> (x * 4)) & mask;
    let mut s = String::new();
    push_bit(&mut s, res, 3);
    push_bit(&mut s, res, 2);
    push_bit(&mut s, res, 1);
    push_bit(&mut s, res, 0);
    proof {
        assert(s@ =~= binary4(nib(row, x)));
    }
    s
}

} // verus!
