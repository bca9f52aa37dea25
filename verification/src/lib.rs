//! Move generation and adversarial search for a chess variant played on
//! bitboards: an 8x8 grid packed into a `u64`, twelve such boards making up a
//! full position.

pub mod bits;
pub mod board;
pub mod bot;
pub mod crop;
pub mod constants;
pub mod fill_beyond_bit;
pub mod game;
pub mod find_block;
pub mod find_occ_bit;
pub mod map;
pub mod mask_for_square;
pub mod moves;
pub mod neighbor;
pub mod open_squares;
pub mod pawn_move;
pub mod safe_shift;
pub mod split_state;
pub mod utility;
