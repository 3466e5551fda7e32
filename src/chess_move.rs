//! Moves, their wire form, and the flags word that describes a played move.
use vstd::prelude::*;

use crate::constants::{BISHOP_ID, KNIGHT_ID, QUEEN_ID, ROOK_ID};
use crate::utility::{file_char, index_to_square, push_char, rank_char, square_to_string};

verus! {

/// A move: start square, end square, and the piece a pawn promotes to (0 when
/// the move is no promotion).
#[derive(Clone, Copy, PartialEq, Eq, Structural, Hash, Debug)]
pub struct Move {
    pub start_index: u32,
    pub end_index: u32,
    pub promotion_piece: u8,
}

/// The algebraic name of square `i`.
pub open spec fn square_name(i: int) -> Seq<char> {
    seq![file_char(i % 8), rank_char(i / 8)]
}

/// The promotion letter that ends a move's wire form, if any.
pub open spec fn promotion_suffix(p: u8) -> Seq<char> {
    if p == QUEEN_ID {
        seq!['q']
    } else if p == ROOK_ID {
        seq!['r']
    } else if p == BISHOP_ID {
        seq!['b']
    } else if p == KNIGHT_ID {
        seq!['n']
    } else {
        Seq::empty()
    }
}

/// The wire form of a move, such as "e2e4" or "e7e8q".
pub open spec fn uci_spec(m: Move) -> Seq<char> {
    square_name(m.start_index as int) + square_name(m.end_index as int) + promotion_suffix(
        m.promotion_piece,
    )
}

impl Move {
    pub fn new(start_index: u32, end_index: u32, promotion_piece: u8) -> (r: Move)
        ensures
            r == (Move { start_index, end_index, promotion_piece }),
    {
        Move { start_index, end_index, promotion_piece }
    }

    pub fn new_no_promotion(start_index: u32, end_index: u32) -> (r: Move)
        ensures
            r == (Move { start_index, end_index, promotion_piece: 0 }),
    {
        Move { start_index, end_index, promotion_piece: 0 }
    }

    /// The move in UCI wire form.
    pub fn uci_move(&self) -> (r: String)
        requires
            self.start_index < 64,
            self.end_index < 64,
        ensures
            r@ == uci_spec(*self),
    {
        let (start_row, start_col) = index_to_square(self.start_index);
        let (end_row, end_col) = index_to_square(self.end_index);
        let mut s = square_to_string(start_row, start_col);
        let end = square_to_string(end_row, end_col);
        push_char(&mut s, end.as_str().get_char(0));
        push_char(&mut s, end.as_str().get_char(1));
        let p = self.promotion_piece;
        if p == QUEEN_ID {
            push_char(&mut s, 'q');
        } else if p == ROOK_ID {
            push_char(&mut s, 'r');
        } else if p == BISHOP_ID {
            push_char(&mut s, 'b');
        } else if p == KNIGHT_ID {
            push_char(&mut s, 'n');
        }
        assert(s@ =~= uci_spec(*self));
        s
    }
}

// Layout of the flags word, least significant bit first:
// piece id (3 bits) | color id (1 bit) | captured piece id (3 bits) | castle | en passant | promotion
pub const PIECE_INDEX: u16 = 0;
pub const COLOR_INDEX: u16 = 3;
pub const CAPTURED_PIECE_INDEX: u16 = 4;
pub const CASTLE_INDEX: u16 = 7;
pub const EN_PASSANT_INDEX: u16 = 8;
pub const PROMOTION_INDEX: u16 = 9;

/// The flags word describing a move with these features.
pub open spec fn pack_flags(
    piece: u8,
    color: u8,
    captured: u8,
    castle: bool,
    en_passant: bool,
    promotion: bool,
) -> u16 {
    (piece as u16) | ((color as u16) << 3u16) | ((captured as u16) << 4u16) | (if castle {
        128u16
    } else {
        0u16
    }) | (if en_passant {
        256u16
    } else {
        0u16
    }) | (if promotion {
        512u16
    } else {
        0u16
    })
}

/// Each field of a packed flags word reads back as it was packed.
pub proof fn lemma_pack_flags_fields(
    piece: u8,
    color: u8,
    captured: u8,
    castle: bool,
    en_passant: bool,
    promotion: bool,
)
    requires
        piece < 8,
        color < 2,
        captured < 8,
    ensures
        ({
            let f = pack_flags(piece, color, captured, castle, en_passant, promotion);
            &&& (f & 7u16) as u8 == piece
            &&& ((f >> 3u16) & 1u16) as u8 == color
            &&& ((f >> 4u16) & 7u16) as u8 == captured
            &&& (f & 128u16 != 0) == castle
            &&& (f & 256u16 != 0) == en_passant
            &&& (f & 512u16 != 0) == promotion
        }),
{
    let c1: u16 = if castle { 128u16 } else { 0u16 };
    let c2: u16 = if en_passant { 256u16 } else { 0u16 };
    let c3: u16 = if promotion { 512u16 } else { 0u16 };
    let p = piece as u16;
    let c = color as u16;
    let k = captured as u16;
    assert({
        let f = p | (c << 3u16) | (k << 4u16) | c1 | c2 | c3;
        &&& f & 7u16 == p
        &&& (f >> 3u16) & 1u16 == c
        &&& (f >> 4u16) & 7u16 == k
        &&& (f & 128u16 != 0) == (c1 == 128u16)
        &&& (f & 256u16 != 0) == (c2 == 256u16)
        &&& (f & 512u16 != 0) == (c3 == 512u16)
    }) by (bit_vector)
        requires
            p < 8,
            c < 2,
            k < 8,
            c1 == 0 || c1 == 128,
            c2 == 0 || c2 == 256,
            c3 == 0 || c3 == 512,
    ;
}

pub fn get_promotion_flag(flags: u16) -> (r: bool)
    ensures
        r == (flags & 512u16 != 0),
{
    flags & 512 != 0
}

pub fn get_en_passant_flag(flags: u16) -> (r: bool)
    ensures
        r == (flags & 256u16 != 0),
{
    flags & 256 != 0
}

pub fn get_castle_flag(flags: u16) -> (r: bool)
    ensures
        r == (flags & 128u16 != 0),
{
    flags & 128 != 0
}

pub fn get_color_flag(flags: u16) -> (r: u8)
    ensures
        r == ((flags >> 3u16) & 1u16) as u8,
{
    ((flags >> COLOR_INDEX) & 0b1) as u8
}

pub fn get_piece_flag(flags: u16) -> (r: u8)
    ensures
        r == (flags & 7u16) as u8,
{
    (flags & 0b111) as u8
}

pub fn get_captured_piece_flag(flags: u16) -> (r: u8)
    ensures
        r == ((flags >> 4u16) & 7u16) as u8,
{
    ((flags >> CAPTURED_PIECE_INDEX) & 0b111) as u8
}

} // verus!
