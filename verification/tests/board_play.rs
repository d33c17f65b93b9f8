use pixel_planner::{
    calc_score, elim_mosaic_breaking_moves, enforce_pixels_left, eval_self_move, find_moves, get_column, insert,
    is_placeable, make_board, make_row, pick_best_move, right_signed, Board, Move, Pickle,
};

fn board_with_rows(rows: &[u32]) -> Board {
    let mut b = Board::new();
    for (i, r) in rows.iter().enumerate() {
        *b.get_mut(i as u32) = *r;
    }
    b
}

#[test]
fn new_board_is_empty_with_full_supply() {
    let b = Board::new();
    for r in 0..11 {
        assert_eq!(b.get(r), 0);
    }
    assert_eq!(b.heights, 0);
    assert_eq!(b.white_pixels_left, 30);
    assert_eq!(b.purple_pixels_left, 5);
    assert_eq!(b.green_pixels_left, 5);
    assert_eq!(b.yellow_pixels_left, 5);
}

#[test]
fn pickle_codes_and_rows() {
    assert_eq!(Pickle::White.to_u32(), 1);
    assert_eq!(Pickle::Purple.to_u32(), 3);
    assert_eq!(Pickle::Green.to_u32(), 5);
    assert_eq!(Pickle::Yellow.to_u32(), 9);
    assert_eq!(make_row(0, Pickle::Yellow), 0x9);
    assert_eq!(make_row(2, Pickle::Green), 0x500);
    assert_eq!(make_row(7, Pickle::Purple), 0x3000_0000);
}

#[test]
fn make_board_places_pixels() {
    let b = make_board(vec![(0, 0, Pickle::Purple), (1, 0, Pickle::White), (3, 2, Pickle::Green)]);
    assert_eq!(b.get(0), 0x13);
    assert_eq!(b.get(1), 0);
    assert_eq!(b.get(2), 0x5000);
    // placing pixels does not touch heights or supply
    assert_eq!(b.heights, 0);
    assert_eq!(b.white_pixels_left, 30);
    let empty = make_board(vec![]);
    assert_eq!(empty.get(0), 0);
    assert_eq!(empty.purple_pixels_left, 5);
}

#[test]
fn writes_past_row_ten_land_in_row_ten() {
    let mut b = Board::new();
    *b.get_mut(12) = 0x77;
    assert_eq!(b.get(10), 0x77);
    assert_eq!(b.get(12), 0);
    *b.get_mut(4) = 0x5;
    assert_eq!(b.get(4), 0x5);
    assert_eq!(b.get(u32::MAX), 0);
}

#[test]
fn insert_stacks_pixels_in_a_column() {
    let mut b = Board::new();
    insert(&mut b, 2, 0x3);
    assert_eq!(b.get(0), 0x300);
    assert_eq!(b.heights, 0x100);
    assert_eq!(b.purple_pixels_left, 4);
    insert(&mut b, 2, 0x1);
    assert_eq!(b.get(1), 0x100);
    assert_eq!(b.heights, 0x200);
    assert_eq!(b.white_pixels_left, 29);
    // column 6 has no cell on even rows: its height moves by two
    insert(&mut b, 6, 0x9);
    assert_eq!(b.get(0), 0x0900_0300);
    assert_eq!(b.heights, 0x0200_0200);
    assert_eq!(b.yellow_pixels_left, 4);
    // a code that is not a pixel kind takes nothing from the supply
    insert(&mut b, 0, 0x2);
    assert_eq!(b.get(0) & 0xF, 0x2);
    assert_eq!(b.white_pixels_left, 29);
    assert_eq!(b.purple_pixels_left, 4);
}

#[test]
fn apply_move_is_insert() {
    let mut a = Board::new();
    let mut b = Board::new();
    a.apply_move(Move { column: 4, color: 5 });
    insert(&mut b, 4, 5);
    assert_eq!(a.get(0), b.get(0));
    assert_eq!(a.heights, b.heights);
    assert_eq!(a.green_pixels_left, 4);
}

#[test]
fn supply_wraps_when_used_up() {
    let mut b = Board::new();
    b.green_pixels_left = 0;
    insert(&mut b, 0, 0x5);
    assert_eq!(b.green_pixels_left, 255);
}

#[test]
fn placeable_cells() {
    let empty = Board::new();
    for x in 0..6 {
        assert!(is_placeable(&empty, x, 0));
    }
    assert!(!is_placeable(&empty, 6, 0));
    // odd rows: column 0 always, others need the cell below-left
    assert!(is_placeable(&empty, 0, 1));
    assert!(!is_placeable(&empty, 1, 1));
    let b = board_with_rows(&[0x0000_0013]);
    assert!(is_placeable(&b, 1, 1));
    assert!(is_placeable(&b, 2, 1));
    assert!(!is_placeable(&b, 3, 1));
    // even rows: need the cell below-right, never column 6
    let c = board_with_rows(&[0, 0x0000_0110]);
    assert!(is_placeable(&c, 0, 2));
    assert!(is_placeable(&c, 1, 2));
    assert!(!is_placeable(&c, 2, 2));
    let d = board_with_rows(&[0, 0x0111_1111]);
    assert!(!is_placeable(&d, 6, 2));
    assert!(is_placeable(&d, 5, 2));
}

#[test]
fn enforce_follows_supply() {
    let mut b = Board::new();
    assert_eq!(enforce_pixels_left(&b, 0xF), 0xF);
    assert_eq!(enforce_pixels_left(&b, 0x6), 0x6);
    b.purple_pixels_left = 0;
    assert_eq!(enforce_pixels_left(&b, 0xF), 0xD);
    b.white_pixels_left = 0;
    b.yellow_pixels_left = 0;
    assert_eq!(enforce_pixels_left(&b, 0xF), 0x4);
    b.green_pixels_left = 0;
    assert_eq!(enforce_pixels_left(&b, 0xF), 0x0);
}

#[test]
fn mosaic_rule_on_empty_board_allows_everything() {
    let b = Board::new();
    for x in 0..6 {
        assert_eq!(elim_mosaic_breaking_moves(x, 0, &b), 0xF);
    }
    assert_eq!(elim_mosaic_breaking_moves(3, 5, &b), 0xF);
}

#[test]
fn mosaic_rule_completes_mosaic_with_third_color() {
    // purple at (0, 0), green at (1, 0): (1, 1) sits on both
    let b = board_with_rows(&[0x53]);
    assert_eq!(elim_mosaic_breaking_moves(1, 1, &b), 0x8);
    // two purples ask for a third purple
    let c = board_with_rows(&[0x33]);
    assert_eq!(elim_mosaic_breaking_moves(1, 1, &c), 0x2);
}

#[test]
fn mosaic_rule_between_two_colored_cells_is_white() {
    let b = board_with_rows(&[0x503]);
    assert_eq!(elim_mosaic_breaking_moves(1, 0, &b), 0x1);
}

#[test]
fn mosaic_rule_next_to_lone_color_asks_for_color() {
    let b = board_with_rows(&[0x3]);
    assert_eq!(elim_mosaic_breaking_moves(1, 1, &b), 0xE);
    // the third cell of that mosaic is white: only white
    let c = board_with_rows(&[0x3, 0x1]);
    assert_eq!(elim_mosaic_breaking_moves(1, 1, &c), 0x1);
}

#[test]
fn mosaic_rule_next_to_joined_colors_is_white() {
    // green at (1, 0) and purple at (2, 0): (3, 0) borders the purple, which
    // already has a colored neighbour
    let b = board_with_rows(&[0x350]);
    assert_eq!(elim_mosaic_breaking_moves(3, 0, &b), 0x1);
}

#[test]
fn right_signed_shifts_both_ways() {
    assert_eq!(right_signed(0x1234_5678, 4), 0x0123_4567);
    assert_eq!(right_signed(0x1234_5678, -4), 0x2345_6780);
    assert_eq!(right_signed(0x1234_5678, 0), 0x1234_5678);
    assert_eq!(right_signed(0xF000_0000, 28), 0xF);
}

#[test]
fn score_of_empty_board_is_zero() {
    assert_eq!(calc_score(&Board::new(), &mut 0), 0);
}

#[test]
fn score_counts_pixels() {
    let b = board_with_rows(&[0x53, 0x90]);
    assert_eq!(calc_score(&b, &mut 0), 9);
    // column 6 of an even row is not a cell
    let c = board_with_rows(&[0x0100_0000]);
    assert_eq!(calc_score(&c, &mut 0), 0);
}

#[test]
fn score_counts_a_mosaic() {
    // whites along the bottom, purple (2, 1), green (3, 1), yellow (2, 2)
    let b = board_with_rows(&[0x11_1111, 0x5300, 0x900]);
    assert_eq!(calc_score(&b, &mut 0), 37);
}

#[test]
fn search_depth_zero_is_score() {
    let b = board_with_rows(&[0x11_1111, 0x5300, 0x900]);
    assert_eq!(eval_self_move(b, 0, &mut 0), 37);
}

#[test]
fn search_one_move_from_empty_board() {
    let b = Board::new();
    assert_eq!(eval_self_move(b, 1, &mut 0), 3);
    let moves = find_moves(&b, 1, &mut 0);
    assert_eq!(moves.len(), 24);
    assert_eq!(moves[0].0.column, 0);
    assert_eq!(moves[0].0.color, 3);
    assert_eq!(moves[3].0.color, 1);
    assert_eq!(moves[23].0.column, 5);
    for (_, v) in moves.iter() {
        assert_eq!(*v, 3);
    }
    let best = pick_best_move(&moves);
    assert_eq!(best.column, 0);
    assert_eq!(best.color, 3);
}

#[test]
fn search_plays_forced_move_for_five_points() {
    // with only white and purple left, column 0 allows exactly 0x3
    let mut b = Board::new();
    b.green_pixels_left = 0;
    b.yellow_pixels_left = 0;
    assert_eq!(eval_self_move(b, 1, &mut 0), 8);
}

#[test]
fn search_uses_supply() {
    let mut b = Board::new();
    b.white_pixels_left = 0;
    b.purple_pixels_left = 0;
    b.green_pixels_left = 0;
    b.yellow_pixels_left = 0;
    assert_eq!(find_moves(&b, 1, &mut 0).len(), 0);
    assert_eq!(eval_self_move(b, 3, &mut 0), 0);
}

#[test]
fn best_move_is_first_with_largest_value() {
    let m = |c: u32, v: i64| (Move { column: c, color: 1 }, v);
    let moves = vec![m(0, 2), m(1, 7), m(2, 7), m(3, 1)];
    let best = pick_best_move(&moves);
    assert_eq!(best.column, 1);
    let none = pick_best_move(&vec![m(4, 0)]);
    assert_eq!(none.column, 0);
    assert_eq!(none.color, 0);
}

#[test]
fn column_as_binary_digits() {
    assert_eq!(get_column(0x1350, 1), "0101");
    assert_eq!(get_column(0x1350, 2), "0011");
    assert_eq!(get_column(0x9000_0000, 7), "1001");
    assert_eq!(get_column(0, 0), "0000");
}

fn all_cells_valid(b: &Board) -> bool {
    (0..11).all(|r| (0..8).all(|c| matches!((b.get(r) >> (c * 4)) & 0xF, 0 | 1 | 3 | 5 | 9)))
}

#[test]
fn search_value_dominates_and_attains_move_values() {
    let b = board_with_rows(&[0x11_1311, 0x0050]);
    let mut b = b;
    b.heights = 0x0011_1211;
    let depth = 2;
    let value = eval_self_move(b, depth, &mut 0);
    let moves = find_moves(&b, depth, &mut 0);
    assert!(!moves.is_empty());
    for (m, v) in moves.iter() {
        assert!(value >= *v);
        let mut after = b;
        insert(&mut after, m.column, m.color);
        assert_eq!(*v, eval_self_move(after, depth - 1, &mut 0));
    }
    assert!(moves.iter().any(|(_, v)| *v == value));
    assert!(value >= 0 && value <= 1771 + 5 * depth as i64);
}

#[test]
fn mosaic_rule_allows_one_kind_or_all_colors_or_anything() {
    let boards = [
        board_with_rows(&[0x53]),
        board_with_rows(&[0x33]),
        board_with_rows(&[0x503]),
        board_with_rows(&[0x3, 0x1]),
        board_with_rows(&[0x11_1111, 0x5300, 0x900]),
        board_with_rows(&[0x95_3931, 0x35_1953, 0x9_5000]),
    ];
    for b in boards.iter() {
        assert!(all_cells_valid(b));
        for y in 0..12 {
            for x in 0..7 {
                let r = elim_mosaic_breaking_moves(x, y, b);
                assert!(matches!(r, 0x1 | 0x2 | 0x4 | 0x8 | 0xE | 0xF), "x {} y {} gives {:x}", x, y, r);
            }
        }
    }
}

#[test]
fn inserting_pixels_keeps_cells_valid() {
    let mut b = Board::new();
    let plays = [(0, 3), (1, 5), (0, 9), (2, 1), (6, 1), (6, 3), (3, 5), (1, 1)];
    for (c, p) in plays.iter() {
        insert(&mut b, *c, *p);
        assert!(all_cells_valid(&b));
    }
    assert_eq!(b.heights, 0x0400_1122);
}

#[test]
fn partner_replies_with_white() {
    let b = Board::new();
    assert_eq!(pixel_planner::eval_partner_move(b, 0, &mut 0), 0);
    assert_eq!(pixel_planner::eval_partner_move(b, 1, &mut 0), 3);
    assert_eq!(pixel_planner::eval_partner_move(b, 2, &mut 0), 3);
    let mut c = Board::new();
    c.white_pixels_left = 0;
    assert_eq!(pixel_planner::eval_partner_move(c, 3, &mut 0), 0);
    let d = board_with_rows(&[0x11_1111, 0x5300, 0x900]);
    assert_eq!(pixel_planner::eval_partner_move(d, 0, &mut 0), 37);
}

#[test]
fn scoring_counts_positions() {
    let b = Board::new();
    let mut positions: u32 = 5;
    calc_score(&b, &mut positions);
    assert_eq!(positions, 6);
    let mut wrapped: u32 = u32::MAX;
    calc_score(&b, &mut wrapped);
    assert_eq!(wrapped, 0);
    let mut n: u32 = 0;
    eval_self_move(b, 0, &mut n);
    assert_eq!(n, 1);
    let mut n: u32 = 0;
    eval_self_move(b, 1, &mut n);
    assert_eq!(n, 24);
    let mut n: u32 = 10;
    find_moves(&b, 1, &mut n);
    assert_eq!(n, 34);
    let mut n: u32 = 0;
    pixel_planner::eval_partner_move(b, 1, &mut n);
    assert_eq!(n, 6);
    let mut n: u32 = 0;
    eval_self_move(b, 2, &mut n);
    assert!(n >= 1 && n <= 28 * 28);
}

#[test]
fn find_moves_at_depth_zero_without_moves() {
    let mut b = Board::new();
    b.white_pixels_left = 0;
    b.purple_pixels_left = 0;
    b.green_pixels_left = 0;
    b.yellow_pixels_left = 0;
    let mut n: u32 = 3;
    assert_eq!(find_moves(&b, 0, &mut n).len(), 0);
    assert_eq!(n, 3);
}

#[test]
fn make_board_ignores_order() {
    let a = make_board(vec![(0, 0, Pickle::Purple), (1, 0, Pickle::White), (3, 2, Pickle::Green), (1, 0, Pickle::Yellow)]);
    let b = make_board(vec![(1, 0, Pickle::Yellow), (3, 2, Pickle::Green), (0, 0, Pickle::Purple), (1, 0, Pickle::White)]);
    for r in 0..11 {
        assert_eq!(a.get(r), b.get(r));
    }
    assert_eq!(a.get(0), 0x93);
}
