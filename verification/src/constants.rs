//! Board-wide bit patterns and the slice layout of a board state.

use vstd::prelude::*;

verus! {

pub const FIRST_FILE: u64 = 0x101010101010101;
pub const FIRST_RANK: u64 = 0xFF;
pub const FORWARD_DIAGONAL: u64 = 0x8040201008040201;
pub const BACKWARD_DIAGONAL: u64 = 0x102040810204080;

pub const ALL_BUT_LAST_FILE: u64 = 0x7F7F7F7F7F7F7F7F;
pub const ALL_BUT_FIRST_FILE: u64 = 0xFEFEFEFEFEFEFEFE;
pub const ALL_BUT_LAST_RANK: u64 = 0xFFFFFFFFFFFFFF;
pub const ALL_BUT_FIRST_RANK: u64 = 0xFFFFFFFFFFFFFF00;

pub const FOURTH_RANK: u64 = 0xFF000000;
pub const FIFTH_RANK: u64 = 0xFF00000000;

pub const WHOLE_BOARD: u64 = 0xFFFFFFFFFFFFFFFF;
pub const EVERY_OTHER_VERTICAL_STARTING_FILE_0: u64 = 0x5555555555555555;

pub const WROOK: u8 = 0;
pub const WBISHOP: u8 = 1;
pub const WQUEEN: u8 = 2;
pub const WPAWN: u8 = 3;
pub const WKNIGHT: u8 = 4;
pub const WKING: u8 = 5;
pub const BROOK: u8 = 6;
pub const BBISHOP: u8 = 7;
pub const BQUEEN: u8 = 8;
pub const BPAWN: u8 = 9;
pub const BKNIGHT: u8 = 10;
pub const BKING: u8 = 11;

pub const BLACK_TEAM: u8 = 0;
pub const WHITE_TEAM: u8 = 1;

pub const STARTING_WPAWNS: u64 = 0xFF00;
pub const STARTING_BPAWNS: u64 = 0xFF000000000000;
pub const STARTING_WROOKS: u64 = 0x81;
pub const STARTING_BROOKS: u64 = 0x8100000000000000;
pub const STARTING_WKNIGHTS: u64 = 0x42;
pub const STARTING_BKNIGHTS: u64 = 0x4200000000000000;
pub const STARTING_WBISHOPS: u64 = 0x24;
pub const STARTING_BBISHOPS: u64 = 0x2400000000000000;
pub const STARTING_WQUEEN: u64 = 0x8;
pub const STARTING_BQUEEN: u64 = 0x800000000000000;
pub const STARTING_WKING: u64 = 0x10;
pub const STARTING_BKING: u64 = 0x1000000000000000;

pub const CENTER_FOUR_SQUARES: u64 = 0x1818000000;
pub const SECOND_CENTER_SQUARES: u64 = 0x3C24243C0000;

} // verus!
