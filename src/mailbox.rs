//! The 64-square mailbox: what stands where, and how a move changes it.
use vstd::prelude::*;

use crate::chess_move::{pack_flags, Move};
use crate::constants::{
    BISHOP_ID, EMPTY_ID, FILE_A_INDEX, FILE_D_INDEX, FILE_F_INDEX, FILE_G_INDEX, FILE_H_INDEX,
    KING_ID, KNIGHT_ID, PAWN_ID, QUEEN_ID, ROOK_ID, WHITE_ID,
};
use crate::fen::{parse_placement, placement_spec, split_fields, split_spec, str_chars, FenError};

verus! {

/// What stands on each square: `color << 3 | piece`, 0 when empty.
#[derive(Clone, Copy, Debug)]
pub struct MailboxBoard {
    pub board: [u8; 64],
}

impl View for MailboxBoard {
    type V = Seq<u8>;

    open spec fn view(&self) -> Seq<u8> {
        self.board@
    }
}

/// The mailbox code of a piece of a color.
pub open spec fn code_spec(piece_id: u8, color_id: u8) -> u8 {
    ((color_id as int) * 8 + piece_id as int) as u8
}

/// The piece a pawn moving by `m` becomes: the move's promotion piece when it
/// names a knight, bishop, rook or queen, a queen otherwise.
pub open spec fn promoted_piece(m: Move) -> u8 {
    if KNIGHT_ID <= m.promotion_piece <= QUEEN_ID {
        m.promotion_piece
    } else {
        QUEEN_ID
    }
}

/// The home and destination squares of the rook in a castle whose king goes
/// from `start` to `end`: on the king's rank, h to f when the king ends on
/// file g, a to d otherwise.
pub open spec fn castle_rook_squares(start: int, end: int) -> (int, int) {
    let row = start / 8;
    if end % 8 == FILE_G_INDEX {
        (row * 8 + FILE_H_INDEX, row * 8 + FILE_F_INDEX)
    } else {
        (row * 8 + FILE_A_INDEX, row * 8 + FILE_D_INDEX)
    }
}

/// The square of the pawn taken en passant by a pawn moving from `start` to
/// `end`: one rank behind the destination, toward the mover, which is the
/// start square's rank on the destination's file.
pub open spec fn en_passant_victim(start: int, end: int) -> int {
    (start / 8) * 8 + end % 8
}

pub open spec fn abs_diff(a: int, b: int) -> int {
    if a >= b {
        a - b
    } else {
        b - a
    }
}

/// What kind of move `m` is on board `b`.
pub open spec fn is_castle(b: Seq<u8>, m: Move) -> bool {
    b[m.start_index as int] % 8 == KING_ID && abs_diff(m.start_index as int, m.end_index as int) == 2
}

pub open spec fn is_en_passant(b: Seq<u8>, m: Move) -> bool {
    let s = m.start_index as int;
    let t = m.end_index as int;
    &&& b[s] % 8 == PAWN_ID
    &&& abs_diff(s % 8, t % 8) == 1
    &&& b[t] == EMPTY_ID
}

pub open spec fn is_promotion(b: Seq<u8>, m: Move) -> bool {
    let s = m.start_index as int;
    let t = m.end_index as int;
    &&& b[s] % 8 == PAWN_ID
    &&& if b[s] / 8 == WHITE_ID as int {
        t / 8 == 0
    } else {
        t / 8 == 7
    }
}

/// What a pawn or other piece moving by `m` on `b` puts on its destination:
/// the promotion piece for a pawn reaching its last rank, itself otherwise.
pub open spec fn landing_code(b: Seq<u8>, m: Move) -> u8 {
    if is_promotion(b, m) {
        code_spec(promoted_piece(m), (b[m.start_index as int] / 8) as u8)
    } else {
        b[m.start_index as int]
    }
}

/// The flags word that moving `m` on board `b` produces.
pub open spec fn flags_spec(b: Seq<u8>, m: Move) -> u16 {
    let s = m.start_index as int;
    let t = m.end_index as int;
    let piece = (b[s] % 8) as u8;
    let color = (b[s] / 8 % 2) as u8;
    let captured = (b[t] % 8) as u8;
    if is_castle(b, m) {
        pack_flags(piece, color, captured, true, false, false)
    } else if is_en_passant(b, m) {
        pack_flags(piece, color, captured, false, true, is_promotion(b, m))
    } else if is_promotion(b, m) {
        pack_flags(piece, color, captured, false, false, true)
    } else {
        pack_flags(piece, color, captured, false, false, false)
    }
}

/// The board after moving `m` on `b`.
pub open spec fn mailbox_after(b: Seq<u8>, m: Move) -> Seq<u8> {
    let s = m.start_index as int;
    let t = m.end_index as int;
    if is_castle(b, m) {
        let (rook_from, rook_to) = castle_rook_squares(s, t);
        let b1 = b.update(rook_to, b[rook_from]).update(rook_from, EMPTY_ID);
        b1.update(t, b1[s]).update(s, EMPTY_ID)
    } else if is_en_passant(b, m) {
        b.update(en_passant_victim(s, t), EMPTY_ID).update(t, landing_code(b, m)).update(s, EMPTY_ID)
    } else if is_promotion(b, m) {
        b.update(t, code_spec(promoted_piece(m), (b[s] / 8) as u8)).update(s, EMPTY_ID)
    } else {
        b.update(t, b[s]).update(s, EMPTY_ID)
    }
}

pub fn make_flags(
    piece: u8,
    color: u8,
    captured: u8,
    castle: bool,
    en_passant: bool,
    promotion: bool,
) -> (r: u16)
    ensures
        r == pack_flags(piece, color, captured, castle, en_passant, promotion),
{
    (piece as u16) | ((color as u16) << 3) | ((captured as u16) << 4) | (if castle {
        128u16
    } else {
        0u16
    }) | (if en_passant {
        256u16
    } else {
        0u16
    }) | (if promotion {
        512u16
    } else {
        0u16
    })
}

/// The mailbox code of a FEN piece letter, 0 for any other character.
pub fn get_piece(c: char) -> (r: u8)
    ensures
        r == crate::fen::piece_code(c),
{
    crate::fen::piece_code_of(c)
}

pub fn piece_id(piece: u8, color: u8) -> (r: u8)
    requires
        piece < 8,
        color < 2,
    ensures
        r == code_spec(piece, color),
{
    color * 8 + piece
}

pub(crate) fn promotion_of(m: &Move) -> (r: u8)
    ensures
        r == promoted_piece(*m),
{
    if KNIGHT_ID <= m.promotion_piece && m.promotion_piece <= QUEEN_ID {
        m.promotion_piece
    } else {
        QUEEN_ID
    }
}

impl MailboxBoard {
    /// Reads the piece placement of a FEN string whose fields are separated by
    /// `separator`; the other five fields are not examined.
    pub fn from_fen(fen: &str, separator: &str) -> (r: Result<MailboxBoard, FenError>)
        ensures
            separator@.len() == 0 ==> r == Err::<MailboxBoard, FenError>(FenError::EmptySeparator),
            separator@.len() > 0 ==> {
                let fields = split_spec(fen@, separator@);
                &&& fields.len() != 6 ==> r == Err::<MailboxBoard, FenError>(FenError::FieldCount)
                &&& fields.len() == 6 && placement_spec(fields[0]) is None ==> r == Err::<
                    MailboxBoard,
                    FenError,
                >(FenError::Placement)
                &&& fields.len() == 6 && placement_spec(fields[0]) is Some ==> (r matches Ok(m)
                    && m@ == placement_spec(fields[0])->0)
            },
    {
        let sep = str_chars(separator);
        if sep.len() == 0 {
            return Err(FenError::EmptySeparator);
        }
        let chars = str_chars(fen);
        let fields = split_fields(&chars, &sep);
        if fields.len() != 6 {
            return Err(FenError::FieldCount);
        }
        assert(fields[0]@ == split_spec(fen@, separator@)[0]);
        match parse_placement(&fields[0]) {
            Some(board) => Ok(MailboxBoard { board }),
            None => Err(FenError::Placement),
        }
    }

    /// The (piece id, color id) on square `index`.
    pub fn get_piece(&self, index: u32) -> (r: (u8, u8))
        requires
            index < 64,
        ensures
            r.0 == self@[index as int] % 8,
            r.1 == self@[index as int] / 8,
    {
        let square = self.board[index as usize];
        (square % 8, square / 8)
    }

    /// Moves a piece without checking legality and returns the flags word that
    /// describes the move: castles move the rook too, en-passant captures
    /// remove the pawn behind the destination, and pawns reaching the last
    /// rank are replaced by the promotion piece.
    pub fn move_piece(&mut self, move_: &Move) -> (r: u16)
        requires
            move_.start_index < 64,
            move_.end_index < 64,
        ensures
            r == flags_spec(old(self)@, *move_),
            final(self)@ == mailbox_after(old(self)@, *move_),
    {
        let s = move_.start_index as usize;
        let t = move_.end_index as usize;
        let start_code = self.board[s];
        let start_piece = start_code % 8;
        let color_id = start_code / 8;
        let captured = self.board[t] % 8;
        let start_col = s % 8;
        let end_col = t % 8;
        let flag_color = color_id % 2;
        if start_piece == KING_ID && (if s >= t {
            s - t
        } else {
            t - s
        }) == 2 {
            self.castle_move(move_);
            return make_flags(start_piece, flag_color, captured, true, false, false);
        }
        let col_diff = if start_col >= end_col {
            start_col - end_col
        } else {
            end_col - start_col
        };
        let last_rank = if color_id == WHITE_ID {
            t / 8 == 0
        } else {
            t / 8 == 7
        };
        if start_piece == PAWN_ID && col_diff == 1 && self.board[t] == EMPTY_ID {
            self.en_passant_move(move_);
            return make_flags(start_piece, flag_color, captured, false, true, last_rank);
        }
        if start_piece == PAWN_ID && last_rank {
            let promoted = promotion_of(move_);
            self.board[t] = color_id * 8 + promoted;
            self.board[s] = EMPTY_ID;
            assert(self@ =~= mailbox_after(old(self)@, *move_));
            return make_flags(start_piece, flag_color, captured, false, false, true);
        }
        self.board[t] = self.board[s];
        self.board[s] = EMPTY_ID;
        assert(self@ =~= mailbox_after(old(self)@, *move_));
        make_flags(start_piece, flag_color, captured, false, false, false)
    }

    fn en_passant_move(&mut self, move_: &Move)
        requires
            move_.start_index < 64,
            move_.end_index < 64,
            is_en_passant(old(self)@, *move_),
        ensures
            final(self)@ == old(self)@.update(
                en_passant_victim(move_.start_index as int, move_.end_index as int),
                EMPTY_ID,
            ).update(move_.end_index as int, landing_code(old(self)@, *move_)).update(
                move_.start_index as int,
                EMPTY_ID,
            ),
    {
        let s = move_.start_index as usize;
        let t = move_.end_index as usize;
        let code = self.board[s];
        let color_id = code / 8;
        let captured_index = (s / 8) * 8 + t % 8;
        let last_rank = if color_id == WHITE_ID {
            t / 8 == 0
        } else {
            t / 8 == 7
        };
        let landing = if last_rank {
            color_id * 8 + promotion_of(move_)
        } else {
            code
        };
        self.board[captured_index] = EMPTY_ID;
        self.board[t] = landing;
        self.board[s] = EMPTY_ID;
        assert(self@ =~= old(self)@.update(en_passant_victim(s as int, t as int), EMPTY_ID).update(
            t as int,
            landing_code(old(self)@, *move_),
        ).update(s as int, EMPTY_ID));
    }

    fn castle_move(&mut self, move_: &Move)
        requires
            move_.start_index < 64,
            move_.end_index < 64,
        ensures
            ({
                let (rook_from, rook_to) = castle_rook_squares(
                    move_.start_index as int,
                    move_.end_index as int,
                );
                let b1 = old(self)@.update(rook_to, old(self)@[rook_from]).update(
                    rook_from,
                    EMPTY_ID,
                );
                final(self)@ == b1.update(move_.end_index as int, b1[move_.start_index as int]).update(
                    move_.start_index as int,
                    EMPTY_ID,
                )
            }),
    {
        let t = move_.end_index as usize;
        let s = move_.start_index as usize;
        let king_row = s / 8;
        let end_col = t % 8;
        let (rook_start_col, rook_end_col) = if end_col == FILE_G_INDEX as usize {
            (FILE_H_INDEX as usize, FILE_F_INDEX as usize)
        } else {
            (FILE_A_INDEX as usize, FILE_D_INDEX as usize)
        };
        let start_rook_index = king_row * 8 + rook_start_col;
        let end_rook_index = king_row * 8 + rook_end_col;
        self.board[end_rook_index] = self.board[start_rook_index];
        self.board[start_rook_index] = EMPTY_ID;
        self.board[t] = self.board[s];
        self.board[s] = EMPTY_ID;
        proof {
            let (rook_from, rook_to) = castle_rook_squares(s as int, t as int);
            let b1 = old(self)@.update(rook_to, old(self)@[rook_from]).update(rook_from, EMPTY_ID);
            assert(self@ =~= b1.update(t as int, b1[s as int]).update(s as int, EMPTY_ID));
        }
    }
}

} // verus!
