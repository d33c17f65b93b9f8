use vstd::prelude::*;
use crate::board::{Board, Move, insert, inserted, lemma_height_mask};
use crate::rules::{placeable, mosaic_rule, supply_mask, is_placeable, elim_mosaic_breaking_moves, enforce_pixels_left};
use crate::score::{score, calc_score, counted, lemma_counted_add, lemma_score_bound};

verus! {

/// The pixels (as bits) that may be dropped on column `x`: none when the cell
/// on top of the column is not placeable, otherwise those that break no mosaic
/// and are still in supply.
pub open spec fn legal_pixels(b: Board, x: u32) -> u32 {
    let y = b.height(x);
    if placeable(b, x, y) { mosaic_rule(b, x, y) & supply_mask(b) } else { 0 }
}

/// A column's legal pixels force the move when they are exactly one of the
/// codes `0x3`, `0x5` or `0x9`.
pub open spec fn is_forced(pixels: u32) -> bool {
    pixels == 0x3 || pixels == 0x5 || pixels == 0x9
}

/// The first column below `n` whose legal pixels force the move.
pub open spec fn forced_column(b: Board, n: int) -> Option<u32>
    decreases n,
{
    if n <= 0 {
        None
    } else {
        match forced_column(b, n - 1) {
            Some(c) => Some(c),
            None => if is_forced(legal_pixels(b, (n - 1) as u32)) { Some((n - 1) as u32) } else { None },
        }
    }
}

/// The bit tested and the cell code played for the `i`-th option of a column:
/// purple, green, yellow, white.
pub open spec fn option_mask(i: int) -> u32 {
    if i == 0 { 0x2 } else if i == 1 { 0x4 } else if i == 2 { 0x8 } else { 0x1 }
}

pub open spec fn option_color(i: int) -> u32 {
    if i == 0 { 0x3 } else if i == 1 { 0x5 } else if i == 2 { 0x9 } else { 0x1 }
}

/// The moves on column `x` among its first `k` options allowed by `pixels`.
pub open spec fn column_moves(x: u32, pixels: u32, k: int) -> Seq<Move>
    decreases k,
{
    if k <= 0 {
        seq![]
    } else {
        let prev = column_moves(x, pixels, k - 1);
        if option_mask(k - 1) & pixels != 0 {
            prev.push(Move { column: x, color: option_color(k - 1) })
        } else {
            prev
        }
    }
}

/// The legal moves on the columns below `n`, column by column, each column in
/// the order purple, green, yellow, white.
pub open spec fn candidate_moves(b: Board, n: int) -> Seq<Move>
    decreases n,
{
    if n <= 0 {
        seq![]
    } else {
        candidate_moves(b, n - 1) + column_moves((n - 1) as u32, legal_pixels(b, (n - 1) as u32), 4)
    }
}

/// The value of a board searched `depth` moves deep by a player who moves
/// alone: the score at depth 0; a forced move on the first column that has one
/// is played and earns 5; otherwise the best value over all legal moves, or the
/// score when there is none.
pub open spec fn position_value(b: Board, depth: nat) -> int
    decreases depth, 0nat,
{
    if depth == 0 {
        score(b)
    } else {
        match forced_column(b, 7) {
            Some(x) => position_value(inserted(b, x, legal_pixels(b, x)), (depth - 1) as nat) + 5,
            None => {
                let m = best_value(b, candidate_moves(b, 7), (depth - 1) as nat);
                if m == -1 { score(b) } else { m }
            },
        }
    }
}

/// The largest value among the boards reached from `b` by `moves`, or -1 when
/// there are none.
pub open spec fn best_value(b: Board, moves: Seq<Move>, depth: nat) -> int
    decreases depth, moves.len(),
{
    if moves.len() == 0 {
        -1
    } else {
        let rest = best_value(b, moves.drop_last(), depth);
        let m = moves.last();
        let v = position_value(inserted(b, m.column, m.color), depth);
        if v > rest { v } else { rest }
    }
}


/// The search value of a board lies between 0 and 1771 plus 5 for every
/// move searched.
pub proof fn lemma_value_bound(b: Board, depth: nat)
    ensures
        0 <= position_value(b, depth) <= 1771 + 5 * depth,
    decreases depth, 0nat,
{
    lemma_score_bound(b);
    if depth > 0 {
        match forced_column(b, 7) {
            Some(x) => {
                lemma_value_bound(inserted(b, x, legal_pixels(b, x)), (depth - 1) as nat);
            },
            None => {
                lemma_best_bound(b, candidate_moves(b, 7), (depth - 1) as nat);
            },
        }
    }
}

/// The best value over a list of moves is -1 for no move, and otherwise
/// between 0 and 1771 plus 5 for every move searched.
pub proof fn lemma_best_bound(b: Board, moves: Seq<Move>, depth: nat)
    ensures
        -1 <= best_value(b, moves, depth) <= 1771 + 5 * depth,
        moves.len() > 0 ==> 0 <= best_value(b, moves, depth),
    decreases depth, moves.len(),
{
    if moves.len() > 0 {
        lemma_best_bound(b, moves.drop_last(), depth);
        let m = moves.last();
        lemma_value_bound(inserted(b, m.column, m.color), depth);
    }
}

proof fn lemma_forced_stays(b: Board, n: int, m: int)
    requires
        n <= m,
        forced_column(b, n) is Some,
    ensures
        forced_column(b, m) == forced_column(b, n),
    decreases m - n,
{
    if n < m {
        lemma_forced_stays(b, n, m - 1);
    }
}

proof fn lemma_zero_and(m: u32)
    by (bit_vector)
    ensures
        0u32 & m == 0,
        m & 0u32 == 0,
{
}

/// The legal pixels of column `x`, computed as the search does.
fn column_pixels(board: &Board, x: u32) -> (pixels: u32)
    requires
        x <= 6,
    ensures
        pixels == legal_pixels(*board, x),
{
    let y = (board.heights & (0xFu32 << x * 4)) >> x * 4;
    proof {
        lemma_height_mask(board.heights, x);
        lemma_zero_and(supply_mask(*board));
    }
    enforce_pixels_left(board, if is_placeable(board, x, y) { elim_mosaic_breaking_moves(x, y, board) } else { 0 })
}

/// The number of boards the search scores when it values `b` at `depth`:
/// one at depth 0; after a forced move, those of the board it leads to;
/// otherwise those of every legal move, and one more when there is no legal
/// move and the board itself is scored.
pub open spec fn self_count(b: Board, depth: nat) -> nat
    decreases depth, 0nat,
{
    if depth == 0 {
        1
    } else {
        match forced_column(b, 7) {
            Some(x) => self_count(inserted(b, x, legal_pixels(b, x)), (depth - 1) as nat),
            None => moves_count(b, candidate_moves(b, 7), (depth - 1) as nat)
                + (if best_value(b, candidate_moves(b, 7), (depth - 1) as nat) == -1 { 1nat } else { 0nat }),
        }
    }
}

/// The number of boards scored when valuing the boards reached from `b` by
/// `moves`.
pub open spec fn moves_count(b: Board, moves: Seq<Move>, depth: nat) -> nat
    decreases depth, moves.len(),
{
    if moves.len() == 0 {
        0
    } else {
        let m = moves.last();
        moves_count(b, moves.drop_last(), depth) + self_count(inserted(b, m.column, m.color), depth)
    }
}

/// The value of `board` searched `depth` moves deep (see `position_value`);
/// `positions`, the count of boards scored, grows by `self_count`.
pub fn eval_self_move(board: Board, depth: u32, positions: &mut u32) -> (value: i64)
    ensures
        value == position_value(board, depth as nat),
        *final(positions) == counted(*old(positions), self_count(board, depth as nat) as int),
    decreases depth,
{
    if depth == 0 {
        return calc_score(&board, positions);
    }
    let ghost b = board;
    let ghost p0 = *positions;
    let mut max: i64 = -1;

    let mut mosaic_breaking: Vec<u32> = Vec::new();
    let mut x: u32 = 0;
    while x < 7
        invariant
            x <= 7,
            depth > 0,
            board == b,
            *positions == p0,
            p0 == *old(positions),
            mosaic_breaking@.len() == x,
            forall|j: int| 0 <= j < x ==> #[trigger] mosaic_breaking@[j] == legal_pixels(b, j as u32),
            forced_column(b, x as int) is None,
        decreases 7 - x,
    {
        let y = (board.heights & (0xFu32 << x * 4)) >> x * 4;
        proof {
            lemma_height_mask(board.heights, x);
        }
        let mut res: u32 = 0;
        if is_placeable(&board, x, y) {
            let moves = enforce_pixels_left(&board, if is_placeable(&board, x, y) { elim_mosaic_breaking_moves(x, y, &board) } else { 0 });
            if moves == 0x3 || moves == 0x5 || moves == 0x9 {
                let mut moved_board = board;
                insert(&mut moved_board, x, moves);
                proof {
                    assert(forced_column(b, x + 1) == Some(x));
                    lemma_forced_stays(b, x + 1, 7);
                    lemma_value_bound(moved_board, (depth - 1) as nat);
                    assert(moves == legal_pixels(b, x));
                    assert(self_count(b, depth as nat) == self_count(moved_board, (depth - 1) as nat));
                }
                return eval_self_move(moved_board, depth - 1, positions) + 5;
            }
            res = moves;
        }
        mosaic_breaking.push(res);
        x += 1;
    }

    let options: [(u32, u32); 4] = [(2, 3), (4, 5), (8, 9), (1, 1)];
    let mut x: u32 = 0;
    while x < 7
        invariant
            x <= 7,
            depth > 0,
            board == b,
            options@ == seq![(2u32, 3u32), (4u32, 5u32), (8u32, 9u32), (1u32, 1u32)],
            mosaic_breaking@.len() == 7,
            forall|j: int| 0 <= j < 7 ==> #[trigger] mosaic_breaking@[j] == legal_pixels(b, j as u32),
            max == best_value(b, candidate_moves(b, x as int), (depth - 1) as nat),
            *positions == counted(p0, moves_count(b, candidate_moves(b, x as int), (depth - 1) as nat) as int),
        decreases 7 - x,
    {
        let pixel = mosaic_breaking[x as usize];
        let ghost before = candidate_moves(b, x as int);
        let mut k: usize = 0;
        while k < 4
            invariant
                x < 7,
                k <= 4,
                depth > 0,
                board == b,
                options@ == seq![(2u32, 3u32), (4u32, 5u32), (8u32, 9u32), (1u32, 1u32)],
                pixel == legal_pixels(b, x),
                max == best_value(b, before + column_moves(x, pixel, k as int), (depth - 1) as nat),
                *positions == counted(p0, moves_count(b, before + column_moves(x, pixel, k as int), (depth - 1) as nat) as int),
            decreases 4 - k,
        {
            let (mask, res) = options[k];
            if mask & pixel != 0 {
                let mut moved_board = board;
                insert(&mut moved_board, x, res);
                let ghost pk = *positions;
                let v = eval_self_move(moved_board, depth - 1, positions);
                proof {
                    let s = before + column_moves(x, pixel, k as int);
                    let m = Move { column: x, color: res };
                    assert((before + column_moves(x, pixel, k + 1)) =~= s.push(m));
                    assert(s.push(m).drop_last() =~= s);
                    lemma_counted_add(p0, moves_count(b, s, (depth - 1) as nat) as int,
                        self_count(moved_board, (depth - 1) as nat) as int);
                }
                if v > max {
                    max = v;
                }
            } else {
                proof {
                    assert((before + column_moves(x, pixel, k + 1)) =~= before + column_moves(x, pixel, k as int));
                }
            }
            k += 1;
        }
        x += 1;
    }

    if max == -1 {
        let ghost pk = *positions;
        let score = calc_score(&board, positions);
        proof {
            lemma_counted_add(p0, moves_count(b, candidate_moves(b, 7), (depth - 1) as nat) as int, 1);
        }
        return score;
    }
    proof {
        lemma_counted_add(p0, moves_count(b, candidate_moves(b, 7), (depth - 1) as nat) as int, 0);
    }
    max
}

proof fn lemma_column_moves_len(x: u32, pixels: u32, k: int, m: int)
    requires
        k <= m,
    ensures
        column_moves(x, pixels, k).len() <= column_moves(x, pixels, m).len(),
    decreases m - k,
{
    if k < m {
        lemma_column_moves_len(x, pixels, k, m - 1);
    }
}

proof fn lemma_candidates_len(b: Board, n: int, m: int)
    requires
        n <= m,
    ensures
        candidate_moves(b, n).len() <= candidate_moves(b, m).len(),
    decreases m - n,
{
    if n < m {
        lemma_candidates_len(b, n, m - 1);
    }
}

/// Every legal move on `board`, in the order of `candidate_moves`, each with
/// the value (see `position_value`) of the board it leads to, searched
/// `depth - 1` further moves; `positions`, the count of boards scored, grows
/// by the boards scored for all of them.
pub fn find_moves(board: &Board, depth: u32, positions: &mut u32) -> (moves: Vec<(Move, i64)>)
    requires
        depth >= 1 || candidate_moves(*board, 7).len() == 0,
    ensures
        moves@.len() == candidate_moves(*board, 7).len(),
        forall|i: int| 0 <= i < moves@.len() ==> {
            let m = #[trigger] candidate_moves(*board, 7)[i];
            &&& moves@[i].0 == m
            &&& moves@[i].1 == position_value(inserted(*board, m.column, m.color), (depth - 1) as nat)
        },
        *final(positions) == counted(
            *old(positions),
            moves_count(*board, candidate_moves(*board, 7), (depth - 1) as nat) as int,
        ),
{
    let ghost b = *board;
    let ghost p0 = *positions;
    let ghost d = (depth - 1) as nat;
    let mut moves: Vec<(Move, i64)> = Vec::new();
    let options: [(u32, u32); 4] = [(2, 3), (4, 5), (8, 9), (1, 1)];
    let mut x: u32 = 0;
    proof {
        lemma_counted_add(p0, 0, 0);
    }
    while x < 7
        invariant
            x <= 7,
            depth >= 1 || candidate_moves(b, 7).len() == 0,
            d == (depth - 1) as nat,
            *board == b,
            options@ == seq![(2u32, 3u32), (4u32, 5u32), (8u32, 9u32), (1u32, 1u32)],
            moves@.len() == candidate_moves(b, x as int).len(),
            forall|i: int| 0 <= i < moves@.len() ==> {
                let m = #[trigger] candidate_moves(b, x as int)[i];
                &&& moves@[i].0 == m
                &&& moves@[i].1 == position_value(inserted(b, m.column, m.color), d)
            },
            *positions == counted(p0, moves_count(b, candidate_moves(b, x as int), d) as int),
        decreases 7 - x,
    {
        let pixel = column_pixels(board, x);
        if pixel == 0 {
            proof {
                assert forall|k: int| 0 <= k <= 4 implies column_moves(x, pixel, k) =~= seq![] by {
                    lemma_no_column_moves(x, pixel, k);
                }
                assert(candidate_moves(b, x + 1) =~= candidate_moves(b, x as int));
            }
            x += 1;
            continue;
        }
        let ghost before = candidate_moves(b, x as int);
        let mut k: usize = 0;
        while k < 4
            invariant
                x < 7,
                k <= 4,
                depth >= 1 || candidate_moves(b, 7).len() == 0,
                d == (depth - 1) as nat,
                *board == b,
                options@ == seq![(2u32, 3u32), (4u32, 5u32), (8u32, 9u32), (1u32, 1u32)],
                pixel == legal_pixels(b, x),
                before == candidate_moves(b, x as int),
                moves@.len() == (before + column_moves(x, pixel, k as int)).len(),
                forall|i: int| 0 <= i < moves@.len() ==> {
                    let m = #[trigger] (before + column_moves(x, pixel, k as int))[i];
                    &&& moves@[i].0 == m
                    &&& moves@[i].1 == position_value(inserted(b, m.column, m.color), d)
                },
                *positions == counted(p0, moves_count(b, before + column_moves(x, pixel, k as int), d) as int),
            decreases 4 - k,
        {
            let (mask, res) = options[k];
            let ghost s = before + column_moves(x, pixel, k as int);
            let mut moved_board = *board;
            if mask & pixel != 0 {
                insert(&mut moved_board, x, res);
            } else {
                proof {
                    assert((before + column_moves(x, pixel, k + 1)) =~= s);
                }
                k += 1;
                continue;
            }
            let ghost m = Move { column: x, color: res };
            proof {
                assert((before + column_moves(x, pixel, k + 1)) =~= s.push(m));
                assert(candidate_moves(b, x + 1) == before + column_moves(x, pixel, 4));
                lemma_column_moves_len(x, pixel, k + 1, 4);
                lemma_candidates_len(b, x + 1, 7);
            }
            let v = eval_self_move(moved_board, depth - 1, positions);
            moves.push((Move { column: x, color: res }, v));
            proof {
                assert(s.push(m).drop_last() =~= s);
                lemma_counted_add(p0, moves_count(b, s, d) as int, self_count(moved_board, d) as int);
            }
            k += 1;
        }
        x += 1;
    }
    moves
}

proof fn lemma_no_column_moves(x: u32, pixels: u32, k: int)
    requires
        pixels == 0,
    ensures
        column_moves(x, pixels, k) =~= seq![],
    decreases k,
{
    lemma_zero_and(option_mask(k - 1));
    if k > 0 {
        lemma_no_column_moves(x, pixels, k - 1);
    }
}


/// Scanning `moves` in order from `(Move { column: 0, color: 0 }, 0)`, a move
/// replaces the one held when its value is strictly larger.
pub open spec fn best_pick(moves: Seq<(Move, i64)>) -> (Move, i64)
    decreases moves.len(),
{
    if moves.len() == 0 {
        (Move { column: 0, color: 0 }, 0)
    } else {
        let held = best_pick(moves.drop_last());
        if moves.last().1 > held.1 { moves.last() } else { held }
    }
}

/// The move to play: the first of the moves with the largest value, when
/// that value is above 0; otherwise `Move { column: 0, color: 0 }`.
pub fn pick_best_move(moves: &Vec<(Move, i64)>) -> (chosen: Move)
    ensures
        chosen == best_pick(moves@).0,
{
    let mut acc: (Move, i64) = (Move { column: 0, color: 0 }, 0);
    let mut i: usize = 0;
    while i < moves.len()
        invariant
            i <= moves.len(),
            acc == best_pick(moves@.subrange(0, i as int)),
        decreases moves.len() - i,
    {
        let x = moves[i];
        proof {
            assert(moves@.subrange(0, i + 1).drop_last() =~= moves@.subrange(0, i as int));
        }
        if x.1 > acc.1 {
            acc = x;
        }
        i += 1;
    }
    proof {
        assert(moves@.subrange(0, moves.len() as int) =~= moves@);
    }
    acc.0
}


/// The partner may drop a white pixel on column `x`: its top cell is
/// placeable and white is still in supply.
pub open spec fn white_reply_allowed(b: Board, x: u32) -> bool {
    placeable(b, x, b.height(x)) && 0x1 & supply_mask(b) != 0
}

/// The last column below `n` on which the partner may reply with white.
pub open spec fn last_white_reply(b: Board, n: int) -> Option<u32>
    decreases n,
{
    if n <= 0 {
        None
    } else if white_reply_allowed(b, (n - 1) as u32) {
        Some((n - 1) as u32)
    } else {
        last_white_reply(b, n - 1)
    }
}

/// The value of a reply with white on column `x`: on odd depths the board
/// after the reply, searched by `position_value`; on even depths the partner
/// moves again on the unchanged board.
pub open spec fn white_reply_value(b: Board, x: u32, depth: nat) -> int
    decreases depth, 0nat,
{
    if depth == 0 {
        0
    } else if depth % 2 == 1 {
        position_value(inserted(b, x, 0x1), (depth - 1) as nat)
    } else {
        partner_value(b, (depth - 1) as nat)
    }
}

/// The value of a board when the partner is to move with white: the score at
/// depth 0 or when no white reply is possible, otherwise the value of the
/// reply on the last column that allows one.
pub open spec fn partner_value(b: Board, depth: nat) -> int
    decreases depth, 1nat,
{
    if depth == 0 {
        score(b)
    } else {
        let v = match last_white_reply(b, 7) {
            None => -1,
            Some(x) => white_reply_value(b, x, depth),
        };
        if v == -1 { score(b) } else { v }
    }
}

/// The value of the last white reply, or -1 when there is none.
pub open spec fn partner_average(b: Board, depth: nat) -> int {
    match last_white_reply(b, 7) {
        None => -1,
        Some(x) => white_reply_value(b, x, depth),
    }
}

/// The number of boards scored when valuing `b` with the partner to move:
/// one at depth 0; otherwise those of every white reply (each reply is
/// searched, though only the last one's value is kept), and one more when
/// there is no reply and the board itself is scored.
pub open spec fn partner_count(b: Board, depth: nat) -> nat
    decreases depth, 1int, 0int,
{
    if depth == 0 {
        1
    } else {
        replies_count(b, depth, 7) + (if partner_average(b, depth) == -1 { 1nat } else { 0nat })
    }
}

/// The number of boards scored for the white replies on the columns below `n`.
pub open spec fn replies_count(b: Board, depth: nat, n: int) -> nat
    decreases depth, 0int, n,
{
    if depth == 0 || n <= 0 {
        0
    } else {
        let x = (n - 1) as u32;
        let here: nat = if !white_reply_allowed(b, x) {
            0
        } else if depth % 2 == 1 {
            self_count(inserted(b, x, 0x1), (depth - 1) as nat)
        } else {
            partner_count(b, (depth - 1) as nat)
        };
        replies_count(b, depth, n - 1) + here
    }
}

/// The value of `board` when the partner replies with white (see
/// `partner_value`); `positions`, the count of boards scored, grows by
/// `partner_count`.
pub fn eval_partner_move(board: Board, depth: u32, positions: &mut u32) -> (value: i64)
    ensures
        value == partner_value(board, depth as nat),
        *final(positions) == counted(*old(positions), partner_count(board, depth as nat) as int),
    decreases depth,
{
    if depth == 0 {
        return calc_score(&board, positions);
    }
    let ghost p0 = *positions;

    let mut average: i64 = -1;
    let mut x: u32 = 0;
    proof {
        lemma_counted_add(p0, 0, 0);
    }
    while x < 7
        invariant
            x <= 7,
            depth > 0,
            average == (match last_white_reply(board, x as int) {
                None => -1,
                Some(c) => white_reply_value(board, c, depth as nat),
            }),
            *positions == counted(p0, replies_count(board, depth as nat, x as int) as int),
        decreases 7 - x,
    {
        let y = (board.heights & (0xFu32 << x * 4)) >> x * 4;
        proof {
            lemma_height_mask(board.heights, x);
        }
        if is_placeable(&board, x, y) && enforce_pixels_left(&board, 0x1) != 0 {
            let mut moved_board = board;
            insert(&mut moved_board, x, 0x1);
            let ghost before = replies_count(board, depth as nat, x as int);
            let v = if depth % 2 == 1 {
                eval_self_move(moved_board, depth - 1, positions)
            } else {
                eval_partner_move(board, depth - 1, positions)
            };
            proof {
                if depth % 2 == 1 {
                    lemma_counted_add(p0, before as int, self_count(moved_board, (depth - 1) as nat) as int);
                } else {
                    lemma_counted_add(p0, before as int, partner_count(board, (depth - 1) as nat) as int);
                }
            }
            // each reply's value replaces the one before
            average = v;
        }
        x += 1;
    }

    if average == -1 {
        let score = calc_score(&board, positions);
        proof {
            lemma_counted_add(p0, replies_count(board, depth as nat, 7) as int, 1);
        }
        return score;
    }
    proof {
        lemma_counted_add(p0, replies_count(board, depth as nat, 7) as int, 0);
    }
    average
}

} // verus!
