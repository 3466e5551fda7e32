//! Piece and color ids, board masks, and the start position.
use vstd::prelude::*;

verus! {

/// The standard starting position.
pub const START_FEN: &'static str = "rnbqkbnr/pppppppp/8/8/8/8/PPPPPPPP/RNBQKBNR w KQkq - 0 1";

pub const WHITE_ID: u8 = 1;
pub const BLACK_ID: u8 = 0;

pub const EMPTY_ID: u8 = 0;
pub const PAWN_ID: u8 = 1;
pub const KNIGHT_ID: u8 = 2;
pub const BISHOP_ID: u8 = 3;
pub const ROOK_ID: u8 = 4;
pub const QUEEN_ID: u8 = 5;
pub const KING_ID: u8 = 6;

/// Squares of file a (column 0).
pub const A_FILE_MASK: u64 = 0x0101010101010101;
/// Squares of file h (column 7).
pub const H_FILE_MASK: u64 = 0x8080808080808080;
/// Squares of rank 8 (row 0).
pub const RANK_8_MASK: u64 = 0x00000000000000ff;
/// Squares of rank 1 (row 7).
pub const RANK_1_MASK: u64 = 0xff00000000000000;
/// Squares of rank 2 (row 6), where white pawns start.
pub const RANK_2_MASK: u64 = 0x00ff000000000000;
/// Squares of rank 7 (row 1), where black pawns start.
pub const RANK_7_MASK: u64 = 0x000000000000ff00;

pub const RANK_1_INDEX: u32 = 7;
pub const RANK_4_INDEX: u32 = 4;
pub const RANK_5_INDEX: u32 = 3;
pub const RANK_8_INDEX: u32 = 0;

pub const FILE_H_INDEX: u32 = 7;
pub const FILE_G_INDEX: u32 = 6;
pub const FILE_F_INDEX: u32 = 5;
pub const FILE_E_INDEX: u32 = 4;
pub const FILE_D_INDEX: u32 = 3;
pub const FILE_C_INDEX: u32 = 2;
pub const FILE_A_INDEX: u32 = 0;

} // verus!
