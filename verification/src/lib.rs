//! Move planning for a hexagonal pixel board: rules for where a pixel may go,
//! the scoring of a board, and a depth-limited search over moves.
//!
//! The board arithmetic follows the wrapping of unsigned integers: the row
//! below the bottom row is row `u32::MAX`, which is empty.

pub mod nibbles;
pub mod board;
pub mod rules;
pub mod score;
pub mod search;
pub mod laws;

pub use board::{Board, Move, Pickle, insert, make_board, make_row, get_column};
pub use rules::{elim_mosaic_breaking_moves, enforce_pixels_left, is_placeable};
pub use score::{calc_score, right_signed};
pub use search::{eval_partner_move, eval_self_move, find_moves, pick_best_move};
