use vstd::prelude::*;
use crate::nibbles::{nib, group_at, bit_set, lemma_same_bits, lemma_or_bit};
use crate::board::{Board, Move, Pickle, binary4, inserted, write_slot, height_step, placed, pickle_code, empty_board};
use crate::rules::{cell, color, colored, mosaic_rule, mosaic_cell, supply_mask, placeable, row_index};
use crate::search::{position_value, best_value, candidate_moves, column_moves, forced_column, best_pick, lemma_best_bound, lemma_value_bound, self_count, moves_count, legal_pixels, option_mask, option_color};
use vstd::arithmetic::power::pow;
use crate::score::{score, mosaic_a, mosaic_b, mosaic_colors, score_cell, cell_points};

verus! {

/// A write through `get_mut(index)` is read back by `get` for rows 0 to 10
/// and leaves every other row as it was; writes past row 10 land in row 10.
pub proof fn law_row_write_read(b: Board, index: u32, v: u32)
    ensures
        b.with_row(write_slot(index), v).row(write_slot(index)) == v,
        forall|r: int| r != write_slot(index) ==> #[trigger] b.with_row(write_slot(index), v).row(r) == b.row(r),
        index <= 10 ==> write_slot(index) == index,
{
}

proof fn lemma_or_group(w: u32, p: u32, c: u32, k: u32)
    by (bit_vector)
    requires
        c < 8,
        k < 8,
        p < 16,
    ensures
        nib(w | (p << ((4 * c) as u32)), k) == (if k == c { nib(w, k) | p } else { nib(w, k) }),
        nib(w, k) == 0 ==> nib(w, k) | p == p,
{
}

proof fn lemma_add_group(h: u32, s: u32, c: u32, k: u32)
    by (bit_vector)
    requires
        c < 8,
        k < 8,
        s < 16,
        nib(h, c) + s < 16,
    ensures
        h + (s << ((4 * c) as u32)) <= 0xFFFF_FFFF,
        nib((h + (s << ((4 * c) as u32))) as u32, k) == (if k == c { (nib(h, k) + s) as u32 } else { nib(h, k) }),
{
}

/// Dropping a pixel on a column puts it on top of that column: the cell at
/// the column's height takes the pixel, every other cell keeps its content,
/// the column grows by one cell (two for column 6, which skips the even rows),
/// the other columns keep their height, and the pixel's kind is taken from
/// the supply. This holds while the column is below row 10, its top cell is
/// empty and its height does not overflow its 4 bits.
pub proof fn law_insert_stacks_pixel(b: Board, c: u32, p: u32)
    requires
        c <= 6,
        b.height(c) < 10,
        cell(b, c as int, b.height(c) as int) == 0,
        p < 16,
        b.height(c) + (if c == 6 { 2int } else { 1int }) < 16,
    ensures
        ({
            let a = inserted(b, c, p);
            let h = b.height(c) as int;
            &&& cell(a, c as int, h) == p
            &&& forall|col: int, r: int| (col != c || r != h) ==> #[trigger] cell(a, col, r) == cell(b, col, r)
            &&& a.height(c) == h + (if c == 6 { 2int } else { 1int })
            &&& forall|k: u32| k < 8 && k != c ==> #[trigger] a.height(k) == b.height(k)
            &&& (p == 1 ==> a.white_pixels_left == b.white_pixels_left - 1 || b.white_pixels_left == 0)
            &&& (p == 3 ==> a.purple_pixels_left == b.purple_pixels_left - 1 || b.purple_pixels_left == 0)
            &&& (p == 5 ==> a.green_pixels_left == b.green_pixels_left - 1 || b.green_pixels_left == 0)
            &&& (p == 9 ==> a.yellow_pixels_left == b.yellow_pixels_left - 1 || b.yellow_pixels_left == 0)
        }),
{
    let a = inserted(b, c, p);
    let h = b.height(c) as int;
    let s: u32 = if c == 6 { 2 } else { 1 };
    assert(height_step(c) == s << ((4 * c) as u32));
    lemma_add_group(b.heights, s, c, c);
    assert(a.heights == (b.heights + (s << ((4 * c) as u32))) as u32);
    lemma_or_group(b.row(h), p, c, c);
    assert forall|col: int, r: int| (col != c || r != h) implies #[trigger] cell(a, col, r) == cell(b, col, r) by {
        if r == h && 0 <= col < 8 {
            lemma_or_group(b.row(h), p, c, col as u32);
        }
    }
    assert forall|k: u32| k < 8 && k != c implies #[trigger] a.height(k) == b.height(k) by {
        lemma_add_group(b.heights, s, c, k);
    }
}

/// Supply is respected: what `enforce_pixels_left` allows is part of what was
/// asked for, no kind whose supply is used up is ever allowed, every kind with
/// at least one pixel left is kept exactly as asked, and nothing above the four
/// kind bits is kept.
pub proof fn law_enforce_respects_supply(b: Board, p: u32)
    ensures
        (p & supply_mask(b)) & !p == 0,
        (p & supply_mask(b)) & !0xFu32 == 0,
        b.white_pixels_left == 0 ==> (p & supply_mask(b)) & 0x1 == 0,
        b.purple_pixels_left == 0 ==> (p & supply_mask(b)) & 0x2 == 0,
        b.green_pixels_left == 0 ==> (p & supply_mask(b)) & 0x4 == 0,
        b.yellow_pixels_left == 0 ==> (p & supply_mask(b)) & 0x8 == 0,
        b.white_pixels_left != 0 ==> (p & supply_mask(b)) & 0x1 == p & 0x1,
        b.purple_pixels_left != 0 ==> (p & supply_mask(b)) & 0x2 == p & 0x2,
        b.green_pixels_left != 0 ==> (p & supply_mask(b)) & 0x4 == p & 0x4,
        b.yellow_pixels_left != 0 ==> (p & supply_mask(b)) & 0x8 == p & 0x8,
{
    let m = supply_mask(b);
    let w: u32 = if b.white_pixels_left != 0 { 1 } else { 0 };
    let pu: u32 = if b.purple_pixels_left != 0 { 2 } else { 0 };
    let g: u32 = if b.green_pixels_left != 0 { 4 } else { 0 };
    let y: u32 = if b.yellow_pixels_left != 0 { 8 } else { 0 };
    assert(m == w + pu + g + y);
    assert((p & m) & !p == 0) by (bit_vector);
    assert((w == 0 || w == 1) && (pu == 0 || pu == 2) && (g == 0 || g == 4) && (y == 0 || y == 8)
        && m == w + pu + g + y ==> {
        &&& (w == 0 ==> (p & m) & 0x1 == 0)
        &&& (pu == 0 ==> (p & m) & 0x2 == 0)
        &&& (g == 0 ==> (p & m) & 0x4 == 0)
        &&& (y == 0 ==> (p & m) & 0x8 == 0)
        &&& (w == 1 ==> (p & m) & 0x1 == p & 0x1)
        &&& (pu == 2 ==> (p & m) & 0x2 == p & 0x2)
        &&& (g == 4 ==> (p & m) & 0x4 == p & 0x4)
        &&& (y == 8 ==> (p & m) & 0x8 == p & 0x8)
        &&& (p & m) & !0xFu32 == 0
    }) by (bit_vector);
}

/// A column whose legal pixels are exactly one pixel code, purple `0x3`, green
/// `0x5` or yellow `0x9`, forces the move when no column to its left does: the
/// search drops that code there, and the board is worth the board after it,
/// searched one move less deep, plus 5.
pub proof fn law_forced_move_is_played(b: Board, x: u32, depth: nat)
    requires
        x <= 6,
        depth >= 1,
        legal_pixels(b, x) == 0x3 || legal_pixels(b, x) == 0x5 || legal_pixels(b, x) == 0x9,
        forall|j: u32| j < x ==> !(#[trigger] legal_pixels(b, j) == 0x3 || legal_pixels(b, j) == 0x5
            || legal_pixels(b, j) == 0x9),
    ensures
        position_value(b, depth) == position_value(inserted(b, x, legal_pixels(b, x)), (depth - 1) as nat) + 5,
{
    assert forall|n: int| 0 <= n <= x implies #[trigger] forced_column(b, n) is None by {
        lemma_no_forced_before(b, x, n);
    }
    assert(forced_column(b, x as int) is None);
    assert(((x + 1) - 1) as u32 == x);
    assert(forced_column(b, x + 1) == Some(x));
    lemma_forced_kept(b, x + 1, 7);
}

proof fn lemma_no_forced_before(b: Board, x: u32, n: int)
    requires
        0 <= n <= x,
        forall|j: u32| j < x ==> !(#[trigger] legal_pixels(b, j) == 0x3 || legal_pixels(b, j) == 0x5
            || legal_pixels(b, j) == 0x9),
    ensures
        forced_column(b, n) is None,
    decreases n,
{
    if n > 0 {
        lemma_no_forced_before(b, x, n - 1);
        assert(!(legal_pixels(b, (n - 1) as u32) == 0x3 || legal_pixels(b, (n - 1) as u32) == 0x5
            || legal_pixels(b, (n - 1) as u32) == 0x9));
    }
}

proof fn lemma_forced_kept(b: Board, n: int, m: int)
    requires
        n <= m,
        forced_column(b, n) is Some,
    ensures
        forced_column(b, m) == forced_column(b, n),
    decreases m - n,
{
    if n < m {
        lemma_forced_kept(b, n, m - 1);
    }
}

/// The search at depth 0 values a board by its score.
pub proof fn law_search_depth_zero(b: Board)
    ensures
        position_value(b, 0) == score(b),
{
}

proof fn lemma_best_dominates(b: Board, moves: Seq<Move>, depth: nat, i: int)
    requires
        0 <= i < moves.len(),
    ensures
        best_value(b, moves, depth) >= position_value(inserted(b, moves[i].column, moves[i].color), depth),
    decreases moves.len(),
{
    if i < moves.len() - 1 {
        lemma_best_dominates(b, moves.drop_last(), depth, i);
    }
}

/// When no move is forced, the search values a board at least as high as the
/// board after any of its legal moves, searched one move less deep; this is
/// the value `find_moves` reports for that move.
pub proof fn law_value_dominates_moves(b: Board, depth: nat, i: int)
    requires
        depth >= 1,
        forced_column(b, 7) is None,
        0 <= i < candidate_moves(b, 7).len(),
    ensures
        position_value(b, depth) >= position_value(
            inserted(b, candidate_moves(b, 7)[i].column, candidate_moves(b, 7)[i].color),
            (depth - 1) as nat,
        ),
{
    lemma_best_dominates(b, candidate_moves(b, 7), (depth - 1) as nat, i);
    lemma_best_bound(b, candidate_moves(b, 7), (depth - 1) as nat);
}

proof fn lemma_best_attained(b: Board, moves: Seq<Move>, depth: nat)
    requires
        moves.len() > 0,
    ensures
        exists|i: int| 0 <= i < moves.len() && best_value(b, moves, depth)
            == position_value(inserted(b, (#[trigger] moves[i]).column, moves[i].color), depth),
    decreases moves.len(),
{
    let m = moves.last();
    let last = moves.len() - 1;
    if moves.len() == 1 {
        assert(best_value(b, moves.drop_last(), depth) == -1);
        lemma_value_bound(inserted(b, m.column, m.color), depth);
        assert(best_value(b, moves, depth) == position_value(inserted(b, moves[last].column, moves[last].color), depth));
    } else {
        let rest = moves.drop_last();
        lemma_best_attained(b, rest, depth);
        let j = choose|j: int| 0 <= j < rest.len() && best_value(b, rest, depth)
            == position_value(inserted(b, (#[trigger] rest[j]).column, rest[j].color), depth);
        assert(moves[j] == rest[j]);
        if best_value(b, moves, depth) == best_value(b, rest, depth) {
            assert(best_value(b, moves, depth) == position_value(inserted(b, moves[j].column, moves[j].color), depth));
        } else {
            assert(best_value(b, moves, depth) == position_value(inserted(b, moves[last].column, moves[last].color), depth));
        }
    }
}

/// When no move is forced and some move is legal, the search value of a board
/// is the value of one of its legal moves: the best one.
pub proof fn law_value_is_attained(b: Board, depth: nat)
    requires
        depth >= 1,
        forced_column(b, 7) is None,
        candidate_moves(b, 7).len() > 0,
    ensures
        exists|i: int| 0 <= i < candidate_moves(b, 7).len() && position_value(b, depth) == position_value(
            inserted(b, (#[trigger] candidate_moves(b, 7)[i]).column, candidate_moves(b, 7)[i].color),
            (depth - 1) as nat,
        ),
{
    lemma_best_attained(b, candidate_moves(b, 7), (depth - 1) as nat);
    lemma_best_bound(b, candidate_moves(b, 7), (depth - 1) as nat);
}

/// The move chosen from a list is at least as good as every listed move; when
/// its value is above 0 it is the first listed move with that value, and
/// otherwise it is `Move { column: 0, color: 0 }` with value 0.
pub proof fn law_best_pick_is_best(moves: Seq<(Move, i64)>)
    ensures
        forall|i: int| 0 <= i < moves.len() ==> (#[trigger] moves[i]).1 <= best_pick(moves).1,
        best_pick(moves).1 > 0 ==> exists|i: int| 0 <= i < moves.len() && moves[i] == best_pick(moves)
            && forall|j: int| 0 <= j < i ==> (#[trigger] moves[j]).1 < moves[i].1,
        best_pick(moves).1 <= 0 ==> best_pick(moves) == (Move { column: 0, color: 0 }, 0i64),
    decreases moves.len(),
{
    if moves.len() > 0 {
        let rest = moves.drop_last();
        law_best_pick_is_best(rest);
        assert forall|i: int| 0 <= i < moves.len() implies (#[trigger] moves[i]).1 <= best_pick(moves).1 by {
            if i < moves.len() - 1 {
                assert(moves[i] == rest[i]);
            }
        }
        if best_pick(moves).1 > 0 {
            if moves.last().1 > best_pick(rest).1 {
                let i = moves.len() - 1;
                assert forall|j: int| 0 <= j < i implies (#[trigger] moves[j]).1 < moves[i].1 by {
                    assert(moves[j] == rest[j]);
                }
            } else {
                let i = choose|i: int| 0 <= i < rest.len() && rest[i] == best_pick(rest)
                    && forall|j: int| 0 <= j < i ==> (#[trigger] rest[j]).1 < rest[i].1;
                assert(moves[i] == rest[i]);
                assert forall|j: int| 0 <= j < i implies (#[trigger] moves[j]).1 < moves[i].1 by {
                    assert(moves[j] == rest[j]);
                    assert(rest[j].1 < rest[i].1);
                }
            }
        }
    }
}

/// Even rows have six cells: nothing is ever placed in column 6 of an even row.
pub proof fn law_even_rows_have_six_cells(b: Board, y: u32)
    requires
        y % 2 == 0,
    ensures
        !placeable(b, 6, y),
{
}


/// The codes a cell may hold: empty, white, purple, green, yellow.
pub open spec fn valid_code(v: u32) -> bool {
    v == 0 || v == 1 || v == 3 || v == 5 || v == 9
}

/// Every cell of the board holds one of the five codes.
pub open spec fn valid_cells(b: Board) -> bool {
    forall|c: int, r: int| 0 <= c < 8 && 0 <= r <= 10 ==> valid_code(#[trigger] cell(b, c, r))
}

proof fn lemma_code_facts(v: u32)
    by (bit_vector)
    ensures
        nib(0, 0) == 0,
        (v == 0 || v == 1 || v == 3 || v == 5 || v == 9) ==> (v & 0xE == 0 || v & 0xE == 2 || v & 0xE == 4 || v & 0xE == 8),
{
}

proof fn lemma_empty_group(k: u32)
    by (bit_vector)
    ensures
        nib(0, k) == 0,
{
}

proof fn lemma_cell_valid(b: Board, c: int, r: int)
    requires
        valid_cells(b),
    ensures
        valid_code(cell(b, c, r)),
        color(cell(b, c, r)) == 0 || color(cell(b, c, r)) == 2 || color(cell(b, c, r)) == 4 || color(cell(b, c, r)) == 8,
{
    if 0 <= c < 8 && !(0 <= r <= 10) {
        lemma_empty_group(c as u32);
    }
    lemma_code_facts(cell(b, c, r));
}

/// On a board whose cells all hold valid codes, the mosaic rule allows either
/// exactly one kind (white, or the one color completing a mosaic), all colors,
/// or everything.
pub proof fn law_mosaic_rule_single_choice(b: Board, x: u32, y: u32)
    requires
        valid_cells(b),
    ensures
        ({
            let r = mosaic_rule(b, x, y);
            r == 0x1 || r == 0x2 || r == 0x4 || r == 0x8 || r == 0xE || r == 0xF
        }),
{
    assert forall|n: int| 0 <= n < 16 implies {
        let k = color(#[trigger] mosaic_cell(b, x, y, n));
        k == 0 || k == 2 || k == 4 || k == 8
    } by {
        let odd = (y % 2) as int;
        if n < 4 {
            lemma_cell_valid(b, x - 1 - odd + n, row_index(y + 1));
        } else if n < 9 {
            lemma_cell_valid(b, x - 2 + (n - 4), y as int);
        } else if n < 13 {
            lemma_cell_valid(b, x - 1 - odd + (n - 9), row_index(y - 1));
        } else {
            lemma_cell_valid(b, x - 1 + (n - 13), row_index(y - 2));
        }
    }
    assert(color(mosaic_cell(b, x, y, 5)) == 0 || color(mosaic_cell(b, x, y, 5)) == 2
        || color(mosaic_cell(b, x, y, 5)) == 4 || color(mosaic_cell(b, x, y, 5)) == 8);
    assert(color(mosaic_cell(b, x, y, 7)) == 0 || color(mosaic_cell(b, x, y, 7)) == 2
        || color(mosaic_cell(b, x, y, 7)) == 4 || color(mosaic_cell(b, x, y, 7)) == 8);
    assert(color(mosaic_cell(b, x, y, 10)) == 0 || color(mosaic_cell(b, x, y, 10)) == 2
        || color(mosaic_cell(b, x, y, 10)) == 4 || color(mosaic_cell(b, x, y, 10)) == 8);
    assert(color(mosaic_cell(b, x, y, 11)) == 0 || color(mosaic_cell(b, x, y, 11)) == 2
        || color(mosaic_cell(b, x, y, 11)) == 4 || color(mosaic_cell(b, x, y, 11)) == 8);
}

/// Dropping a valid pixel code onto an empty top cell keeps every cell valid.
pub proof fn law_insert_keeps_cells_valid(b: Board, c: u32, p: u32)
    requires
        valid_cells(b),
        c <= 6,
        valid_code(p),
        cell(b, c as int, write_slot(b.height(c))) == 0,
    ensures
        valid_cells(inserted(b, c, p)),
{
    let a = inserted(b, c, p);
    let h = write_slot(b.height(c));
    assert forall|col: int, r: int| 0 <= col < 8 && 0 <= r <= 10 implies valid_code(#[trigger] cell(a, col, r)) by {
        assert(valid_code(cell(b, col, r)));
        if r == h {
            lemma_or_group(b.row(h), p, c, col as u32);
        }
    }
}


proof fn lemma_column_moves_at_most(x: u32, pixels: u32, k: int)
    requires
        0 <= k,
    ensures
        column_moves(x, pixels, k).len() <= k,
    decreases k,
{
    if k > 0 {
        lemma_column_moves_at_most(x, pixels, k - 1);
    }
}

/// A board has at most four legal moves per column below `n`.
proof fn lemma_candidates_at_most(b: Board, n: int)
    requires
        0 <= n,
    ensures
        candidate_moves(b, n).len() <= 4 * n,
    decreases n,
{
    if n > 0 {
        lemma_candidates_at_most(b, n - 1);
        lemma_column_moves_at_most((n - 1) as u32, legal_pixels(b, (n - 1) as u32), 4);
    }
}

/// A search `depth` moves deep scores at least one board and at most
/// `28^depth` (seven columns with four options each, at every level).
pub proof fn law_search_count_bounds(b: Board, depth: nat)
    ensures
        1 <= self_count(b, depth) <= pow(28, depth),
    decreases depth, 0nat,
{
    reveal(pow);
    if depth > 0 {
        let d = (depth - 1) as nat;
        let p = pow(28, d);
        assert(pow(28, depth) == 28 * p);
        lemma_pow_nonneg(d);
        match forced_column(b, 7) {
            Some(x) => {
                law_search_count_bounds(inserted(b, x, legal_pixels(b, x)), d);
            },
            None => {
                let cm = candidate_moves(b, 7);
                lemma_moves_count_bounds(b, cm, d);
                lemma_best_bound(b, cm, d);
                lemma_candidates_at_most(b, 7);
                assert(cm.len() * p <= 28 * p) by (nonlinear_arith)
                    requires
                        cm.len() <= 28,
                        p >= 1,
                ;
            },
        }
    }
}

proof fn lemma_pow_nonneg(d: nat)
    ensures
        pow(28, d) >= 1,
{
    vstd::arithmetic::power::lemma_pow_positive(28, d);
}

proof fn lemma_moves_count_bounds(b: Board, moves: Seq<Move>, depth: nat)
    ensures
        moves_count(b, moves, depth) <= moves.len() * pow(28, depth),
        moves.len() > 0 ==> moves_count(b, moves, depth) >= 1,
    decreases depth, moves.len(),
{
    if moves.len() > 0 {
        let m = moves.last();
        lemma_moves_count_bounds(b, moves.drop_last(), depth);
        law_search_count_bounds(inserted(b, m.column, m.color), depth);
        let p = pow(28, depth);
        let n = moves.len();
        assert((n - 1) * p + p == n * p) by (nonlinear_arith);
    }
}


/// The bit of a pixel kind in a set of allowed pixels: purple `0x3` is
/// `0x2`, green `0x5` is `0x4`, yellow `0x9` is `0x8`, white `0x1` is `0x1`.
pub open spec fn color_bit(c: u32) -> u32 {
    if c == 3 { 0x2 } else if c == 5 { 0x4 } else if c == 9 { 0x8 } else if c == 1 { 0x1 } else { 0 }
}

proof fn lemma_contains_push(s: Seq<Move>, a: Move, m: Move)
    ensures
        s.push(a).contains(m) <==> (s.contains(m) || a == m),
{
    if s.contains(m) {
        let i = choose|i: int| 0 <= i < s.len() && s[i] == m;
        assert(s.push(a)[i] == m);
    }
    if a == m {
        assert(s.push(a)[s.len() as int] == m);
    }
    if s.push(a).contains(m) {
        let i = choose|i: int| 0 <= i < s.push(a).len() && s.push(a)[i] == m;
        if i < s.len() {
            assert(s[i] == m);
        }
    }
}

proof fn lemma_contains_concat(s: Seq<Move>, t: Seq<Move>, m: Move)
    ensures
        (s + t).contains(m) <==> (s.contains(m) || t.contains(m)),
{
    if s.contains(m) {
        let i = choose|i: int| 0 <= i < s.len() && s[i] == m;
        assert((s + t)[i] == m);
    }
    if t.contains(m) {
        let i = choose|i: int| 0 <= i < t.len() && t[i] == m;
        assert((s + t)[s.len() + i] == m);
    }
    if (s + t).contains(m) {
        let i = choose|i: int| 0 <= i < (s + t).len() && (s + t)[i] == m;
        if i < s.len() {
            assert(s[i] == m);
        } else {
            assert(t[i - s.len()] == m);
        }
    }
}

proof fn lemma_column_moves_contain(x: u32, p: u32, k: int, m: Move)
    requires
        k <= 4,
    ensures
        column_moves(x, p, k).contains(m) <==> (m.column == x && exists|j: int|
            0 <= j < k && option_color(j) == m.color && #[trigger] option_mask(j) & p != 0),
    decreases k,
{
    if k <= 0 {
        assert(!column_moves(x, p, k).contains(m));
    } else {
        lemma_column_moves_contain(x, p, k - 1, m);
        let prev = column_moves(x, p, k - 1);
        let a = Move { column: x, color: option_color(k - 1) };
        if option_mask(k - 1) & p != 0 {
            lemma_contains_push(prev, a, m);
        }
        if m.column == x && exists|j: int| 0 <= j < k && option_color(j) == m.color && #[trigger] option_mask(j) & p != 0 {
            let j = choose|j: int| 0 <= j < k && option_color(j) == m.color && #[trigger] option_mask(j) & p != 0;
            if j < k - 1 {
                assert(exists|j2: int| 0 <= j2 < k - 1 && option_color(j2) == m.color && #[trigger] option_mask(j2) & p != 0);
            } else {
                assert(a == m);
            }
        }
    }
}

proof fn lemma_candidates_contain(b: Board, n: int, m: Move)
    requires
        0 <= n <= 7,
    ensures
        candidate_moves(b, n).contains(m) <==> (m.column < n && exists|j: int|
            0 <= j < 4 && option_color(j) == m.color && #[trigger] option_mask(j) & legal_pixels(b, m.column) != 0),
    decreases n,
{
    if n == 0 {
        assert(!candidate_moves(b, n).contains(m));
    } else {
        lemma_candidates_contain(b, n - 1, m);
        let x = (n - 1) as u32;
        lemma_contains_concat(candidate_moves(b, n - 1), column_moves(x, legal_pixels(b, x), 4), m);
        lemma_column_moves_contain(x, legal_pixels(b, x), 4, m);
    }
}

/// The moves `find_moves` lists are exactly the pairs of a column 0 to 6 and
/// a pixel kind whose bit is among the column's legal pixels.
pub proof fn law_candidate_moves_membership(b: Board, x: u32, c: u32)
    ensures
        candidate_moves(b, 7).contains(Move { column: x, color: c })
            <==> (x <= 6 && (c == 3 || c == 5 || c == 9 || c == 1) && color_bit(c) & legal_pixels(b, x) != 0),
{
    let m = Move { column: x, color: c };
    lemma_candidates_contain(b, 7, m);
    if x <= 6 && (c == 3 || c == 5 || c == 9 || c == 1) && color_bit(c) & legal_pixels(b, x) != 0 {
        let j: int = if c == 3 { 0 } else if c == 5 { 1 } else if c == 9 { 2 } else { 3 };
        assert(option_color(j) == c && option_mask(j) & legal_pixels(b, x) != 0);
    }
}


/// How many of the first `n` groups of a row word hold code `k`.
pub open spec fn row_code_count(w: u32, k: u32, n: int) -> int
    decreases n,
{
    if n <= 0 { 0 } else { row_code_count(w, k, n - 1) + (if group_at(w, n - 1) == k { 1int } else { 0 }) }
}

/// How many cells of the rows below `rows` hold code `k`.
pub open spec fn board_code_count(b: Board, k: u32, rows: int) -> int
    decreases rows,
{
    if rows <= 0 { 0 } else { board_code_count(b, k, rows - 1) + row_code_count(b.row(rows - 1), k, 8) }
}

/// The pixels of kind `k` left to play.
pub open spec fn supply_of(b: Board, k: u32) -> int {
    if k == 1 {
        b.white_pixels_left as int
    } else if k == 3 {
        b.purple_pixels_left as int
    } else if k == 5 {
        b.green_pixels_left as int
    } else if k == 9 {
        b.yellow_pixels_left as int
    } else {
        0
    }
}

proof fn lemma_row_count_one_group(w1: u32, w2: u32, c: int, k: u32, n: int)
    requires
        0 <= c < 8,
        0 <= n <= 8,
        forall|j: int| 0 <= j < 8 && j != c ==> #[trigger] group_at(w2, j) == group_at(w1, j),
    ensures
        row_code_count(w2, k, n) == row_code_count(w1, k, n) + (if n > c {
            (if group_at(w2, c) == k { 1int } else { 0 }) - (if group_at(w1, c) == k { 1int } else { 0 })
        } else {
            0
        }),
    decreases n,
{
    if n > 0 {
        lemma_row_count_one_group(w1, w2, c, k, n - 1);
    }
}

proof fn lemma_board_count_one_row(b1: Board, b2: Board, h: int, k: u32, rows: int)
    requires
        0 <= h <= 10,
        0 <= rows <= 11,
        forall|r: int| 0 <= r <= 10 && r != h ==> #[trigger] b2.row(r) == b1.row(r),
    ensures
        board_code_count(b2, k, rows) == board_code_count(b1, k, rows) + (if rows > h {
            row_code_count(b2.row(h), k, 8) - row_code_count(b1.row(h), k, 8)
        } else {
            0
        }),
    decreases rows,
{
    if rows > 0 {
        lemma_board_count_one_row(b1, b2, h, k, rows - 1);
    }
}

/// Dropping a pixel on a column keeps, for every kind, the pixels of that
/// kind on the board plus those left to play: the top cell, empty before,
/// takes the pixel and its supply shrinks by one. This holds for a board of
/// valid codes, a column below row 10 and a kind still in supply.
pub proof fn law_insert_conserves_pixels(b: Board, c: u32, p: u32)
    requires
        valid_cells(b),
        c <= 6,
        b.height(c) <= 10,
        cell(b, c as int, b.height(c) as int) == 0,
        p == 1 || p == 3 || p == 5 || p == 9,
        supply_of(b, p) > 0,
    ensures
        valid_cells(inserted(b, c, p)),
        cell(inserted(b, c, p), c as int, b.height(c) as int) == p,
        forall|k: u32| (k == 1 || k == 3 || k == 5 || k == 9) ==>
            #[trigger] board_code_count(inserted(b, c, p), k, 11) + supply_of(inserted(b, c, p), k)
            == board_code_count(b, k, 11) + supply_of(b, k),
{
    let a = inserted(b, c, p);
    let h = b.height(c) as int;
    law_insert_keeps_cells_valid(b, c, p);
    lemma_or_group(b.row(h), p, c, c);
    assert forall|j: int| 0 <= j < 8 && j != c implies #[trigger] group_at(a.row(h), j) == group_at(b.row(h), j) by {
        lemma_or_group(b.row(h), p, c, j as u32);
    }
    assert forall|k: u32| (k == 1 || k == 3 || k == 5 || k == 9) implies
        #[trigger] board_code_count(a, k, 11) + supply_of(a, k) == board_code_count(b, k, 11) + supply_of(b, k) by {
        lemma_row_count_one_group(b.row(h), a.row(h), c as int, k, 8);
        lemma_board_count_one_row(b, a, h, k, 11);
    }
}


/// Some listed pixel lands in row `r` and sets bit `i` of it.
pub open spec fn listed_bit(s: Seq<(u32, u32, Pickle)>, r: int, i: u32) -> bool {
    exists|j: int| 0 <= j < s.len() && write_slot(s[j].1) == r
        && bit_set(pickle_code(#[trigger] s[j].2) << ((4 * s[j].0) as u32), i)
}

proof fn lemma_placed_bits(b: Board, s: Seq<(u32, u32, Pickle)>, r: int, i: u32)
    requires
        0 <= r <= 10,
        i < 32,
    ensures
        bit_set(placed(b, s).row(r), i) == (bit_set(b.row(r), i) || listed_bit(s, r, i)),
        placed(b, s).heights == b.heights,
        placed(b, s).white_pixels_left == b.white_pixels_left,
        placed(b, s).purple_pixels_left == b.purple_pixels_left,
        placed(b, s).green_pixels_left == b.green_pixels_left,
        placed(b, s).yellow_pixels_left == b.yellow_pixels_left,
    decreases s.len(),
{
    if s.len() > 0 {
        let rest = s.drop_last();
        lemma_placed_bits(b, rest, r, i);
        let prev = placed(b, rest);
        let (x, y, p) = s.last();
        let v = pickle_code(p) << ((4 * x) as u32);
        let last = s.len() - 1;
        if write_slot(y) == r {
            lemma_or_bit(prev.row(r), v, i);
        }
        if listed_bit(rest, r, i) {
            let j = choose|j: int| 0 <= j < rest.len() && write_slot(rest[j].1) == r
                && bit_set(pickle_code(#[trigger] rest[j].2) << ((4 * rest[j].0) as u32), i);
            assert(s[j] == rest[j]);
        }
        if write_slot(y) == r && bit_set(v, i) {
            assert(s[last] == (x, y, p));
        }
        if listed_bit(s, r, i) {
            let j = choose|j: int| 0 <= j < s.len() && write_slot(s[j].1) == r
                && bit_set(pickle_code(#[trigger] s[j].2) << ((4 * s[j].0) as u32), i);
            if j < last {
                assert(rest[j] == s[j]);
            }
        }
    }
}

proof fn lemma_listed_bit_same_elements(s1: Seq<(u32, u32, Pickle)>, s2: Seq<(u32, u32, Pickle)>, r: int, i: u32)
    requires
        forall|e: (u32, u32, Pickle)| s1.contains(e) ==> s2.contains(e),
        listed_bit(s1, r, i),
    ensures
        listed_bit(s2, r, i),
{
    let j = choose|j: int| 0 <= j < s1.len() && write_slot(s1[j].1) == r
        && bit_set(pickle_code(#[trigger] s1[j].2) << ((4 * s1[j].0) as u32), i);
    let e = s1[j];
    assert(s1.contains(e));
    let j2 = choose|j2: int| 0 <= j2 < s2.len() && s2[j2] == e;
    assert(s2[j2].2 == e.2);
}

/// The board that `make_board` builds depends only on which pixels are
/// listed, not on their order (nor on repeats): two lists with the same
/// elements give the same board.
pub proof fn law_make_board_ignores_order(s1: Seq<(u32, u32, Pickle)>, s2: Seq<(u32, u32, Pickle)>)
    requires
        forall|e: (u32, u32, Pickle)| s1.contains(e) <==> s2.contains(e),
    ensures
        placed(empty_board(), s1) == placed(empty_board(), s2),
{
    let a = placed(empty_board(), s1);
    let c = placed(empty_board(), s2);
    assert forall|r: int| 0 <= r <= 10 implies #[trigger] a.row(r) == c.row(r) by {
        assert forall|i: u32| i < 32 implies #[trigger] ((a.row(r) >> i) & 1) == ((c.row(r) >> i) & 1) by {
            lemma_placed_bits(empty_board(), s1, r, i);
            lemma_placed_bits(empty_board(), s2, r, i);
            if listed_bit(s1, r, i) {
                lemma_listed_bit_same_elements(s1, s2, r, i);
            }
            if listed_bit(s2, r, i) {
                lemma_listed_bit_same_elements(s2, s1, r, i);
            }
            lemma_or_bit(a.row(r), 0, i);
            lemma_or_bit(c.row(r), 0, i);
        }
        lemma_same_bits(a.row(r), c.row(r));
    }
    lemma_placed_bits(empty_board(), s1, 0, 0);
    lemma_placed_bits(empty_board(), s2, 0, 0);
    assert(a.r0 == a.row(0) && a.r1 == a.row(1) && a.r2 == a.row(2) && a.r3 == a.row(3));
    assert(a.r4 == a.row(4) && a.r5 == a.row(5) && a.r6 == a.row(6) && a.r7 == a.row(7));
    assert(a.r8 == a.row(8) && a.r9 == a.row(9) && a.r10 == a.row(10));
    assert(c.r0 == c.row(0) && c.r1 == c.row(1) && c.r2 == c.row(2) && c.r3 == c.row(3));
    assert(c.r4 == c.row(4) && c.r5 == c.row(5) && c.r6 == c.row(6) && c.r7 == c.row(7));
    assert(c.r8 == c.row(8) && c.r9 == c.row(9) && c.r10 == c.row(10));
}


proof fn lemma_group_low_bit(w: u32, k: u32)
    by (bit_vector)
    requires
        k < 8,
    ensures
        (nib(w, k) & 1 != 0) == ((w >> ((4 * k) as u32)) & 1 == 1),
{
}

/// Where a pixel may go, read from the row words: on row 0 every column but 6;
/// on an odd row column 0, or column `x` when the lowest bit of column `x - 1`
/// of the row below is set (whatever column `x` of that row holds); on an even
/// row column `x` (not 6) when the lowest bit of column `x + 1` of the row
/// below is set.
pub proof fn law_placeable_support(b: Board, x: u32, y: u32)
    requires
        y == 0 || (y % 2 == 1 && x <= 8) || (y % 2 == 0 && x <= 6),
    ensures
        y == 0 ==> (placeable(b, x, y) <==> x != 6),
        y % 2 == 1 && x == 0 ==> placeable(b, x, y),
        y % 2 == 1 && x >= 1 ==> (placeable(b, x, y)
            <==> (b.row(y - 1) >> ((4 * (x - 1)) as u32)) & 1 == 1),
        y != 0 && y % 2 == 0 ==> (placeable(b, x, y)
            <==> x != 6 && (b.row(y - 1) >> ((4 * (x + 1)) as u32)) & 1 == 1),
{
    if y % 2 == 1 && x >= 1 {
        lemma_group_low_bit(b.row(y - 1), (x - 1) as u32);
    }
    if y != 0 && y % 2 == 0 {
        lemma_group_low_bit(b.row(y - 1), (x + 1) as u32);
    }
}


/// The column, in row `y - 1`, of the cell below-left of `(x, y)`: rows are
/// shifted half a cell against each other, so on an even row it is `x`, on an
/// odd row `x - 1`.
pub open spec fn below_left(x: u32, y: u32) -> int {
    x - (y % 2) as int
}

/// The column, in row `y - 1`, of the cell below-right of `(x, y)`.
pub open spec fn below_right(x: u32, y: u32) -> int {
    below_left(x, y) + 1
}

proof fn lemma_mosaic_cells(b: Board, x: u32, y: u32)
    requires
        y >= 1,
    ensures
        mosaic_cell(b, x, y, 5) == cell(b, x - 1, y as int),
        mosaic_cell(b, x, y, 7) == cell(b, x + 1, y as int),
        mosaic_cell(b, x, y, 4) == cell(b, x - 2, y as int),
        mosaic_cell(b, x, y, 8) == cell(b, x + 2, y as int),
        mosaic_cell(b, x, y, 9) == cell(b, below_left(x, y) - 1, y - 1),
        mosaic_cell(b, x, y, 10) == cell(b, below_left(x, y), y - 1),
        mosaic_cell(b, x, y, 11) == cell(b, below_right(x, y), y - 1),
        mosaic_cell(b, x, y, 12) == cell(b, below_right(x, y) + 1, y - 1),
        mosaic_cell(b, x, y, 13) == cell(b, x - 1, y - 2),
        mosaic_cell(b, x, y, 14) == cell(b, x as int, y - 2),
        mosaic_cell(b, x, y, 15) == cell(b, x + 1, y - 2),
{
    assert(row_index(y - 1) == y - 1);
    if y >= 2 {
        assert(row_index(y - 2) == y - 2);
    } else {
        assert(b.row(row_index(y - 2)) == b.row(y - 2));
    }
}

/// When the only colored cell touching `(x, y)` is the one below-right of it,
/// and that cell has no other colored neighbour around `(x, y)`, a white right
/// neighbour (the third cell of their mosaic) leaves only white (`0x1`);
/// otherwise any color (`0xE`) continues the mosaic.
pub proof fn law_lone_below_right(b: Board, x: u32, y: u32)
    requires
        y >= 1,
        colored(cell(b, below_right(x, y), y - 1)),
        !colored(cell(b, below_left(x, y), y - 1)),
        !colored(cell(b, x - 1, y as int)),
        !colored(cell(b, x + 1, y as int)),
        !colored(cell(b, below_right(x, y) + 1, y - 1)),
        !colored(cell(b, x as int, y - 2)),
        !colored(cell(b, x + 1, y - 2)),
    ensures
        mosaic_rule(b, x, y) == (if cell(b, x + 1, y as int) == 1 { 0x1u32 } else { 0xEu32 }),
{
    lemma_mosaic_cells(b, x, y);
}

/// The mirror image: when the only colored cell touching `(x, y)` is the one
/// below-left of it, with no other colored neighbour around `(x, y)`, a white
/// left neighbour leaves only white (`0x1`); otherwise any color (`0xE`).
pub proof fn law_lone_below_left(b: Board, x: u32, y: u32)
    requires
        y >= 1,
        colored(cell(b, below_left(x, y), y - 1)),
        !colored(cell(b, below_right(x, y), y - 1)),
        !colored(cell(b, x - 1, y as int)),
        !colored(cell(b, x + 1, y as int)),
        !colored(cell(b, below_left(x, y) - 1, y - 1)),
        !colored(cell(b, x - 1, y - 2)),
        !colored(cell(b, x as int, y - 2)),
    ensures
        mosaic_rule(b, x, y) == (if cell(b, x - 1, y as int) == 1 { 0x1u32 } else { 0xEu32 }),
{
    lemma_mosaic_cells(b, x, y);
}

/// On a board of valid codes, when both cells below `(x, y)` are colored and
/// no other cell around that triangle is, `(x, y)` must complete the mosaic:
/// exactly one color is allowed, the same as theirs when they agree, and
/// otherwise the color that neither of them has.
pub proof fn law_completes_mosaic_below(b: Board, x: u32, y: u32)
    requires
        valid_cells(b),
        y >= 1,
        colored(cell(b, below_left(x, y), y - 1)),
        colored(cell(b, below_right(x, y), y - 1)),
        !colored(cell(b, x - 1, y as int)),
        !colored(cell(b, x + 1, y as int)),
        !colored(cell(b, below_left(x, y) - 1, y - 1)),
        !colored(cell(b, below_right(x, y) + 1, y - 1)),
        !colored(cell(b, x - 1, y - 2)),
        !colored(cell(b, x as int, y - 2)),
        !colored(cell(b, x + 1, y - 2)),
    ensures
        ({
            let r = mosaic_rule(b, x, y);
            let l = color(cell(b, below_left(x, y), y - 1));
            let rt = color(cell(b, below_right(x, y), y - 1));
            &&& r == 0x2 || r == 0x4 || r == 0x8
            &&& l == rt ==> r == l
            &&& l != rt ==> r != l && r != rt
        }),
{
    lemma_mosaic_cells(b, x, y);
    lemma_cell_valid(b, below_left(x, y), y - 1);
    lemma_cell_valid(b, below_right(x, y), y - 1);
}


/// Three cell colors form a mosaic that the score counts: all three colored,
/// and either all different, or all the same color other than purple.
pub open spec fn scored_triangle(a: u32, b: u32, c: u32) -> bool {
    a != 0 && b != 0 && c != 0 && ((a != b && b != c && a != c) || (a == b && b == c && a != 2))
}

proof fn lemma_triangle_tests(a: u32, b: u32, c: u32)
    requires
        a == 0 || a == 2 || a == 4 || a == 8,
        b == 0 || b == 2 || b == 4 || b == 8,
        c == 0 || c == 2 || c == 4 || c == 8,
    ensures
        (a * 0x10_0000_0000int + b * 0x10_0000int + c * 0x1_0000int > 0x00_000_0200_0220_000int
            && mosaic_colors(a, b, c)) == scored_triangle(a, b, c),
        (a * 0x10_0000_0000int + b * 0x1_0000_0000int + c * 0x1_0000int > 0x00_000_0220_0020_000int
            && mosaic_colors(a, b, c)) == scored_triangle(a, b, c),
{
}

proof fn lemma_score_cells(b: Board, x: int, y: int)
    requires
        0 <= y <= 10,
    ensures
        ({
            let o = y % 2;
            &&& forall|n: int| 0 <= n < 3 ==> #[trigger] score_cell(b, x, y, n) == cell(b, x - o + n, y - 1)
            &&& forall|n: int| 3 <= n < 7 ==> #[trigger] score_cell(b, x, y, n) == cell(b, x - 1 + (n - 3), y)
            &&& forall|n: int| 7 <= n < 11 ==> #[trigger] score_cell(b, x, y, n) == cell(b, x - 2 * o + (n - 7), y + 1)
            &&& forall|n: int| 11 <= n < 14 ==> #[trigger] score_cell(b, x, y, n) == cell(b, x - o + (n - 11), y + 2)
        }),
{
    if y >= 1 {
        assert(row_index(y - 1) == y - 1);
    } else {
        assert(b.row(row_index(y - 1)) == b.row(y - 1));
    }
}

/// On a board of valid codes, the score finds a mosaic on an odd row at cells
/// `(x, y)`, `(x + 1, y)` and `(x, y + 1)` exactly when those three form a
/// scored triangle and none of the nine cells around them is colored.
pub proof fn law_flat_mosaic_odd_row(b: Board, x: int, y: int)
    requires
        valid_cells(b),
        0 <= y <= 10,
        y % 2 == 1,
    ensures
        mosaic_a(b, x, y) == ({
            let k = |c: int, r: int| color(cell(b, c, r));
            &&& k(x - 1, y - 1) == 0 && k(x, y - 1) == 0 && k(x + 1, y - 1) == 0
            &&& k(x - 1, y) == 0 && k(x + 2, y) == 0
            &&& k(x - 1, y + 1) == 0 && k(x + 1, y + 1) == 0
            &&& k(x, y + 2) == 0 && k(x + 1, y + 2) == 0
            &&& scored_triangle(k(x, y + 1), k(x + 1, y), k(x, y))
        }),
{
    lemma_score_cells(b, x, y);
    assert(score_cell(b, x, y, 4) == cell(b, x, y));
    assert(score_cell(b, x, y, 5) == cell(b, x + 1, y));
    assert(score_cell(b, x, y, 9) == cell(b, x, y + 1));
    lemma_cell_valid(b, x, y);
    lemma_cell_valid(b, x + 1, y);
    lemma_cell_valid(b, x, y + 1);
    lemma_triangle_tests(color(cell(b, x, y + 1)), color(cell(b, x + 1, y)), color(cell(b, x, y)));
    assert(score_cell(b, x, y, 0) == cell(b, x - 1, y - 1));
    assert(score_cell(b, x, y, 1) == cell(b, x, y - 1));
    assert(score_cell(b, x, y, 2) == cell(b, x + 1, y - 1));
    assert(score_cell(b, x, y, 3) == cell(b, x - 1, y));
    assert(score_cell(b, x, y, 6) == cell(b, x + 2, y));
    assert(score_cell(b, x, y, 8) == cell(b, x - 1, y + 1));
    assert(score_cell(b, x, y, 10) == cell(b, x + 1, y + 1));
    assert(score_cell(b, x, y, 12) == cell(b, x, y + 2));
    assert(score_cell(b, x, y, 13) == cell(b, x + 1, y + 2));
}

/// On an even row the same mosaic is read at cells `(x, y)`, `(x + 1, y)` and
/// `(x + 2, y + 1)`, with the nine cells around the window's triangle uncolored.
pub proof fn law_flat_mosaic_even_row(b: Board, x: int, y: int)
    requires
        valid_cells(b),
        0 <= y <= 10,
        y % 2 == 0,
    ensures
        mosaic_a(b, x, y) == ({
            let k = |c: int, r: int| color(cell(b, c, r));
            &&& k(x, y - 1) == 0 && k(x + 1, y - 1) == 0 && k(x + 2, y - 1) == 0
            &&& k(x - 1, y) == 0 && k(x + 2, y) == 0
            &&& k(x + 1, y + 1) == 0 && k(x + 3, y + 1) == 0
            &&& k(x + 1, y + 2) == 0 && k(x + 2, y + 2) == 0
            &&& scored_triangle(k(x + 2, y + 1), k(x + 1, y), k(x, y))
        }),
{
    lemma_score_cells(b, x, y);
    assert(score_cell(b, x, y, 4) == cell(b, x, y));
    assert(score_cell(b, x, y, 5) == cell(b, x + 1, y));
    assert(score_cell(b, x, y, 9) == cell(b, x + 2, y + 1));
    lemma_cell_valid(b, x, y);
    lemma_cell_valid(b, x + 1, y);
    lemma_cell_valid(b, x + 2, y + 1);
    lemma_triangle_tests(color(cell(b, x + 2, y + 1)), color(cell(b, x + 1, y)), color(cell(b, x, y)));
    assert(score_cell(b, x, y, 0) == cell(b, x, y - 1));
    assert(score_cell(b, x, y, 1) == cell(b, x + 1, y - 1));
    assert(score_cell(b, x, y, 2) == cell(b, x + 2, y - 1));
    assert(score_cell(b, x, y, 3) == cell(b, x - 1, y));
    assert(score_cell(b, x, y, 6) == cell(b, x + 2, y));
    assert(score_cell(b, x, y, 8) == cell(b, x + 1, y + 1));
    assert(score_cell(b, x, y, 10) == cell(b, x + 3, y + 1));
    assert(score_cell(b, x, y, 12) == cell(b, x + 1, y + 2));
    assert(score_cell(b, x, y, 13) == cell(b, x + 2, y + 2));
}

/// On a board of valid codes, the score finds the other mosaic on an odd row at
/// cells `(x, y)`, `(x - 1, y + 1)` and `(x, y + 1)` exactly when those three
/// form a scored triangle and none of the nine cells around them is colored.
pub proof fn law_pointed_mosaic_odd_row(b: Board, x: int, y: int)
    requires
        valid_cells(b),
        0 <= y <= 10,
        y % 2 == 1,
    ensures
        mosaic_b(b, x, y) == ({
            let k = |c: int, r: int| color(cell(b, c, r));
            &&& k(x - 1, y - 1) == 0 && k(x, y - 1) == 0
            &&& k(x - 1, y) == 0 && k(x + 1, y) == 0
            &&& k(x - 2, y + 1) == 0 && k(x + 1, y + 1) == 0
            &&& k(x - 1, y + 2) == 0 && k(x, y + 2) == 0 && k(x + 1, y + 2) == 0
            &&& scored_triangle(k(x, y + 1), k(x - 1, y + 1), k(x, y))
        }),
{
    lemma_score_cells(b, x, y);
    assert(score_cell(b, x, y, 4) == cell(b, x, y));
    assert(score_cell(b, x, y, 8) == cell(b, x - 1, y + 1));
    assert(score_cell(b, x, y, 9) == cell(b, x, y + 1));
    lemma_cell_valid(b, x, y);
    lemma_cell_valid(b, x - 1, y + 1);
    lemma_cell_valid(b, x, y + 1);
    lemma_triangle_tests(color(cell(b, x, y + 1)), color(cell(b, x - 1, y + 1)), color(cell(b, x, y)));
    assert(score_cell(b, x, y, 0) == cell(b, x - 1, y - 1));
    assert(score_cell(b, x, y, 1) == cell(b, x, y - 1));
    assert(score_cell(b, x, y, 3) == cell(b, x - 1, y));
    assert(score_cell(b, x, y, 5) == cell(b, x + 1, y));
    assert(score_cell(b, x, y, 7) == cell(b, x - 2, y + 1));
    assert(score_cell(b, x, y, 10) == cell(b, x + 1, y + 1));
    assert(score_cell(b, x, y, 11) == cell(b, x - 1, y + 2));
    assert(score_cell(b, x, y, 12) == cell(b, x, y + 2));
    assert(score_cell(b, x, y, 13) == cell(b, x + 1, y + 2));
}

/// On an even row the other mosaic is read at cells `(x, y)`, `(x + 1, y + 1)`
/// and `(x + 2, y + 1)`, with the nine cells around the window's triangle
/// uncolored.
pub proof fn law_pointed_mosaic_even_row(b: Board, x: int, y: int)
    requires
        valid_cells(b),
        0 <= y <= 10,
        y % 2 == 0,
    ensures
        mosaic_b(b, x, y) == ({
            let k = |c: int, r: int| color(cell(b, c, r));
            &&& k(x, y - 1) == 0 && k(x + 1, y - 1) == 0
            &&& k(x - 1, y) == 0 && k(x + 1, y) == 0
            &&& k(x, y + 1) == 0 && k(x + 3, y + 1) == 0
            &&& k(x, y + 2) == 0 && k(x + 1, y + 2) == 0 && k(x + 2, y + 2) == 0
            &&& scored_triangle(k(x + 2, y + 1), k(x + 1, y + 1), k(x, y))
        }),
{
    lemma_score_cells(b, x, y);
    assert(score_cell(b, x, y, 4) == cell(b, x, y));
    assert(score_cell(b, x, y, 8) == cell(b, x + 1, y + 1));
    assert(score_cell(b, x, y, 9) == cell(b, x + 2, y + 1));
    lemma_cell_valid(b, x, y);
    lemma_cell_valid(b, x + 1, y + 1);
    lemma_cell_valid(b, x + 2, y + 1);
    lemma_triangle_tests(color(cell(b, x + 2, y + 1)), color(cell(b, x + 1, y + 1)), color(cell(b, x, y)));
    assert(score_cell(b, x, y, 0) == cell(b, x, y - 1));
    assert(score_cell(b, x, y, 1) == cell(b, x + 1, y - 1));
    assert(score_cell(b, x, y, 3) == cell(b, x - 1, y));
    assert(score_cell(b, x, y, 5) == cell(b, x + 1, y));
    assert(score_cell(b, x, y, 7) == cell(b, x, y + 1));
    assert(score_cell(b, x, y, 10) == cell(b, x + 3, y + 1));
    assert(score_cell(b, x, y, 11) == cell(b, x, y + 2));
    assert(score_cell(b, x, y, 12) == cell(b, x + 1, y + 2));
    assert(score_cell(b, x, y, 13) == cell(b, x + 2, y + 2));
}


/// An isolated triangle of one color, green or yellow, on an odd row scores
/// like a triangle of three colors: 3 for the pixel at `(x, y)` and 10 for the
/// mosaic.
pub proof fn law_triangle_mosaic_scores(b: Board, x: int, y: int)
    requires
        valid_cells(b),
        0 <= y <= 10,
        y % 2 == 1,
        ({
            let t = (cell(b, x, y), cell(b, x + 1, y), cell(b, x, y + 1));
            ||| t == (5u32, 5u32, 5u32)
            ||| t == (9u32, 9u32, 9u32)
            ||| (t.0 != t.1 && t.1 != t.2 && t.0 != t.2 && (t.0 == 3 || t.0 == 5 || t.0 == 9)
                && (t.1 == 3 || t.1 == 5 || t.1 == 9) && (t.2 == 3 || t.2 == 5 || t.2 == 9))
        }),
        !colored(cell(b, x - 1, y - 1)),
        !colored(cell(b, x, y - 1)),
        !colored(cell(b, x + 1, y - 1)),
        !colored(cell(b, x - 1, y)),
        !colored(cell(b, x + 2, y)),
        !colored(cell(b, x - 1, y + 1)),
        !colored(cell(b, x + 1, y + 1)),
        !colored(cell(b, x, y + 2)),
        !colored(cell(b, x + 1, y + 2)),
    ensures
        cell_points(b, x, y) == 13,
{
    law_flat_mosaic_odd_row(b, x, y);
    law_pointed_mosaic_odd_row(b, x, y);
    lemma_code_facts(cell(b, x, y));
    lemma_code_facts(cell(b, x + 1, y));
    lemma_code_facts(cell(b, x, y + 1));
    assert(3u32 & 0xE == 2 && 5u32 & 0xE == 4 && 9u32 & 0xE == 8) by (bit_vector);
}

/// On a board of valid codes where no cell is colored, every pixel scores
/// exactly 3: no mosaic is found anywhere.
pub proof fn law_white_board_scores_pixels(b: Board, x: int, y: int)
    requires
        valid_cells(b),
        0 <= y <= 10,
        forall|c: int, r: int| !colored(#[trigger] cell(b, c, r)),
    ensures
        cell_points(b, x, y) == (if cell(b, x, y) != 0 { 3int } else { 0 }),
{
    lemma_score_cells(b, x, y);
    assert(!colored(cell(b, x, y)));
    let o = y % 2;
    assert(score_cell(b, x, y, 4) == cell(b, x, y));
    assert(score_cell(b, x, y, 9) == cell(b, x - 2 * o + 2, y + 1));
    assert(!colored(cell(b, x - 2 * o + 2, y + 1)));
}

/// When none of the four cells touching `(x, y)` from the side or from below
/// is colored, no mosaic is at stake and every pixel is allowed (`0xF`).
pub proof fn law_free_cell_allows_everything(b: Board, x: u32, y: u32)
    requires
        y >= 1,
        !colored(cell(b, x - 1, y as int)),
        !colored(cell(b, x + 1, y as int)),
        !colored(cell(b, below_left(x, y), y - 1)),
        !colored(cell(b, below_right(x, y), y - 1)),
    ensures
        mosaic_rule(b, x, y) == 0xF,
{
    lemma_mosaic_cells(b, x, y);
}

/// A cell between two colored side neighbours, with nothing colored below it,
/// takes only white (`0x1`): any color would join two mosaics.
pub proof fn law_between_two_colors_is_white(b: Board, x: u32, y: u32)
    requires
        y >= 1,
        colored(cell(b, x - 1, y as int)),
        colored(cell(b, x + 1, y as int)),
        !colored(cell(b, below_left(x, y), y - 1)),
        !colored(cell(b, below_right(x, y), y - 1)),
    ensures
        mosaic_rule(b, x, y) == 0x1,
{
    lemma_mosaic_cells(b, x, y);
}

/// The four digits `get_column` writes read back, in base 2, as the cell's
/// value.
pub proof fn law_binary_digits_read_back(v: u32)
    requires
        v < 16,
    ensures
        ({
            let d = binary4(v);
            let bit = |i: int| if d[i] == '1' { 1int } else { 0int };
            &&& d.len() == 4
            &&& forall|i: int| 0 <= i < 4 ==> (#[trigger] d[i] == '0' || d[i] == '1')
            &&& 8 * bit(0) + 4 * bit(1) + 2 * bit(2) + bit(3) == v
        }),
{
    assert(((v >> 3) & 1 == 1 || (v >> 3) & 1 == 0) && ((v >> 2) & 1 == 1 || (v >> 2) & 1 == 0)
        && ((v >> 1) & 1 == 1 || (v >> 1) & 1 == 0) && ((v >> 0) & 1 == 1 || (v >> 0) & 1 == 0)) by (bit_vector);
    assert(v < 16 ==> v == 8 * ((v >> 3) & 1) + 4 * ((v >> 2) & 1) + 2 * ((v >> 1) & 1) + ((v >> 0) & 1))
        by (bit_vector);
}

} // verus!
